use st::config::{StConfig, StConfigError};
use st::errors::StError;
use st::remote::{plan_submit_update, render_pr_comment, should_delete_closed, should_pull, PullRequestInfo};
use st::tree::StackTree;

fn pr(closed: bool, merged: bool, base: &str, head: &str) -> PullRequestInfo {
    PullRequestInfo {
        closed,
        merged,
        base_ref: base.to_string(),
        head_sha: head.to_string(),
        draft: false,
    }
}

#[test]
fn closed_or_merged_pull_requests_offer_deletion() {
    assert!(should_delete_closed(&pr(true, false, "trunk", "h")));
    assert!(should_delete_closed(&pr(false, true, "trunk", "h")));
    assert!(should_delete_closed(&pr(true, true, "trunk", "h")));
    assert!(!should_delete_closed(&pr(false, false, "trunk", "h")));
}

#[test]
fn submit_update_moves_base_only_when_it_differs() {
    let p = plan_submit_update(&pr(false, false, "old-base", "h"), "trunk", "h", false);
    assert!(p.update_base);
    let p = plan_submit_update(&pr(false, false, "trunk", "h"), "trunk", "h", false);
    assert!(!p.update_base);
}

#[test]
fn submit_skips_push_when_head_matches_tip() {
    // an unchanged local tip performs no push, by commit identity
    let p = plan_submit_update(&pr(false, false, "trunk", "same"), "trunk", "same", false);
    assert!(!p.push);
    let p = plan_submit_update(&pr(false, false, "trunk", "remote"), "trunk", "local", false);
    assert!(p.push);
    let p = plan_submit_update(&pr(false, false, "trunk", "remote"), "trunk", "local", true);
    assert!(p.push && p.force);
}

#[test]
fn second_submit_with_unchanged_tip_pushes_nothing() {
    // a freshly submitted branch records its pull request and no comment;
    // submitting again with the same tip and parent plans no push and no
    // base move, while the navigation comment can still be rendered
    let mut t = StackTree::new("trunk".to_string());
    t.insert("trunk", "t1", "a").unwrap();
    t.record_submission("a", 7).unwrap();
    let meta = t.get("a").unwrap().remote.unwrap();
    assert_eq!(meta.pr_number, 7);
    assert_eq!(meta.comment_id, None);
    let p = plan_submit_update(&pr(false, false, "trunk", "tip-a"), "trunk", "tip-a", false);
    assert!(!p.push && !p.update_base);
    let stack = vec!["trunk".to_string(), "a".to_string()];
    assert!(render_pr_comment(&t, "a", &stack).is_ok());
}

#[test]
fn sync_pulls_trunk_and_submitted_branches_only() {
    let mut t = StackTree::new("trunk".to_string());
    t.insert("trunk", "t1", "a").unwrap();
    t.insert("a", "a1", "b").unwrap();
    t.record_submission("b", 9).unwrap();
    assert_eq!(should_pull(&t, "trunk").unwrap(), true);
    assert_eq!(should_pull(&t, "a").unwrap(), false);
    assert_eq!(should_pull(&t, "b").unwrap(), true);
    let e = should_pull(&t, "ghost").unwrap_err();
    assert_eq!(e, StError::BranchNotTracked("ghost".to_string()));
}

#[test]
fn comment_lists_stack_trunk_to_tip_and_marks_current() {
    let mut t = StackTree::new("trunk".to_string());
    t.insert("trunk", "t1", "a").unwrap();
    t.insert("a", "a1", "b").unwrap();
    t.record_submission("a", 1).unwrap();
    t.record_submission("b", 2).unwrap();
    let stack = vec!["trunk".to_string(), "a".to_string(), "b".to_string()];
    let comment = render_pr_comment(&t, "a", &stack).unwrap();
    let expected = "## \u{1F4DA} $\\text{Stack Overview}$\n\nPulls submitted in this stack:\n\
                    * #1 \u{1F448}\n\
                    * #2\n\
                    * `trunk`\n\
                    \n_This comment was automatically generated by `st`._";
    assert_eq!(comment, expected);
}

#[test]
fn comment_skips_unsubmitted_branches() {
    let mut t = StackTree::new("trunk".to_string());
    t.insert("trunk", "t1", "a").unwrap();
    t.insert("a", "a1", "b").unwrap();
    t.record_submission("b", 1234567890123456789).unwrap();
    let stack = vec!["trunk".to_string(), "a".to_string(), "b".to_string()];
    let comment = render_pr_comment(&t, "b", &stack).unwrap();
    let expected = "## \u{1F4DA} $\\text{Stack Overview}$\n\nPulls submitted in this stack:\n\
                    * #1234567890123456789 \u{1F448}\n\
                    * `trunk`\n\
                    \n_This comment was automatically generated by `st`._";
    assert_eq!(comment, expected);
}

#[test]
fn comment_renders_zero_pull_request_number() {
    let mut t = StackTree::new("trunk".to_string());
    t.insert("trunk", "t1", "a").unwrap();
    t.record_submission("a", 0).unwrap();
    let stack = vec!["trunk".to_string(), "a".to_string()];
    let comment = render_pr_comment(&t, "other", &stack).unwrap();
    assert!(comment.contains("* #0\n"));
}

#[test]
fn comment_reports_untracked_stack_entry() {
    let t = StackTree::new("trunk".to_string());
    let stack = vec!["trunk".to_string(), "ghost".to_string()];
    let e = render_pr_comment(&t, "trunk", &stack).unwrap_err();
    assert_eq!(e, StError::BranchNotTracked("ghost".to_string()));
}

#[test]
fn config_validation_requires_a_token() {
    let cfg = StConfig { github_token: String::new() };
    let e = cfg.validate().unwrap_err();
    assert_eq!(e, StConfigError::MissingField("github_token".to_string()));
    let cfg = StConfig { github_token: "tok".to_string() };
    assert!(cfg.validate().is_ok());
}

#[test]
fn owner_and_repository_parses_ssh_urls() {
    let (org, repo) =
        st::remote::owner_and_repository("git@github.com:acme/widgets.git").unwrap();
    assert_eq!(org, "acme");
    assert_eq!(repo, "widgets");
    let (org, repo) = st::remote::owner_and_repository("git@github.com:acme/widgets").unwrap();
    assert_eq!(org, "acme");
    assert_eq!(repo, "widgets");
}

#[test]
fn owner_and_repository_parses_https_urls() {
    let (org, repo) =
        st::remote::owner_and_repository("https://github.com/acme/widgets.git").unwrap();
    assert_eq!(org, "acme");
    assert_eq!(repo, "widgets");
    let (org, repo) =
        st::remote::owner_and_repository("https://github.com/acme/widgets").unwrap();
    assert_eq!(org, "acme");
    assert_eq!(repo, "widgets");
}

#[test]
fn owner_and_repository_rejects_other_forms() {
    let e = st::remote::owner_and_repository("ftp://example.com/x").unwrap_err();
    assert_eq!(e, StError::DecodingError("Unsupported remote URL format.".to_string()));
    let e = st::remote::owner_and_repository("git@github.com").unwrap_err();
    assert_eq!(e, StError::DecodingError("Invalid SSH URL format.".to_string()));
    let e = st::remote::owner_and_repository("git@github.com:acme").unwrap_err();
    assert_eq!(
        e,
        StError::DecodingError("Repository not found while decoding remote URL.".to_string())
    );
}
