//! Decisions of the remote synchronization protocol: which closed pull
//! requests lead to a deletion offer, whether a submit step must move a
//! pull request's base or push at all, which branches a sync pulls, and
//! the exact text of the stack navigation comment. The surrounding binary
//! talks to the review service and feeds the observed pull request state
//! in as plain values.

use crate::errors::StError;
use crate::tree::StackTree;
use vstd::prelude::*;
use vstd::string::StringExecFns;

verus! {

/// The state of a pull request as reported by the review service.
#[derive(Debug, Clone, PartialEq, Eq)]
pub struct PullRequestInfo {
    /// Whether the service reports the pull request as closed.
    pub closed: bool,
    /// Whether the pull request has been merged.
    pub merged: bool,
    /// The name of the branch the pull request is based on.
    pub base_ref: String,
    /// The commit identifier of the pull request's remote head.
    pub head_sha: String,
    /// Whether the pull request is a draft.
    pub draft: bool,
}

/// Whether the pre-flight check offers to delete a branch: its pull
/// request is closed or has been merged.
pub fn should_delete_closed(pr: &PullRequestInfo) -> (b: bool)
    ensures
        b == (pr.closed || pr.merged),
{
    pr.closed || pr.merged
}

/// What the submit step does for a branch that already has a pull
/// request.
#[derive(Debug, Clone, PartialEq, Eq)]
pub struct SubmitUpdatePlan {
    /// The pull request's base must be moved to the branch's current
    /// parent.
    pub update_base: bool,
    /// The branch must be pushed: its local tip differs from the remote
    /// head. When the two are equal the push is skipped.
    pub push: bool,
    /// A push is forced, as requested by the operator.
    pub force: bool,
}

/// Plans the submit step for an already-submitted branch: the base moves
/// exactly when the recorded base differs from the branch's current
/// parent, and the push is skipped exactly when the remote head already
/// equals the local tip. Skipping is decided by commit identity, never by
/// time, so an unchanged branch is never pushed twice.
pub fn plan_submit_update(
    pr: &PullRequestInfo,
    parent_name: &str,
    local_tip: &str,
    force: bool,
) -> (p: SubmitUpdatePlan)
    ensures
        p.update_base == (pr.base_ref@ != parent_name@),
        p.push == (pr.head_sha@ != local_tip@),
        p.force == force,
{
    let parent_owned = parent_name.to_owned();
    let tip_owned = local_tip.to_owned();
    let update_base = !(pr.base_ref == parent_owned);
    let push = !(pr.head_sha == tip_owned);
    SubmitUpdatePlan { update_base, push, force }
}

/// Whether a sync pulls the named branch: the trunk always, any other
/// branch only once it has been submitted.
pub fn should_pull(tree: &StackTree, branch_name: &str) -> (r: Result<bool, StError>)
    requires
        tree.wf(),
    ensures
        r is Ok <==> tree.has(branch_name@),
        r matches Ok(b) ==> b == (branch_name@ == tree.trunk_name@ || tree.node(
            branch_name@,
        ).remote is Some),
        r matches Err(e) ==> (e matches StError::BranchNotTracked(n) && n@ == branch_name@),
    {
    let node = match tree.get(branch_name) {
        Some(n) => n,
        None => {
            return Err(StError::BranchNotTracked(branch_name.to_owned()));
        },
    };
    let owned = branch_name.to_owned();
    if owned == tree.trunk_name {
        Ok(true)
    } else {
        Ok(node.remote.is_some())
    }
}

/// The character for one decimal digit.
pub open spec fn digit_char(d: nat) -> char {
    if d == 0 {
        '0'
    } else if d == 1 {
        '1'
    } else if d == 2 {
        '2'
    } else if d == 3 {
        '3'
    } else if d == 4 {
        '4'
    } else if d == 5 {
        '5'
    } else if d == 6 {
        '6'
    } else if d == 7 {
        '7'
    } else if d == 8 {
        '8'
    } else {
        '9'
    }
}

/// The decimal digits of `n`, most significant first.
pub open spec fn spec_decimal(n: nat) -> Seq<char>
    decreases n,
{
    if n < 10 {
        seq![digit_char(n)]
    } else {
        spec_decimal(n / 10).push(digit_char(n % 10))
    }
}

/// One decimal digit as text.
fn digit_str(d: u64) -> (r: &'static str)
    requires
        d < 10,
    ensures
        r@ == seq![digit_char(d as nat)],
{
    proof {
        reveal_strlit("0");
        reveal_strlit("1");
        reveal_strlit("2");
        reveal_strlit("3");
        reveal_strlit("4");
        reveal_strlit("5");
        reveal_strlit("6");
        reveal_strlit("7");
        reveal_strlit("8");
        reveal_strlit("9");
    }
    match d {
        0 => "0",
        1 => "1",
        2 => "2",
        3 => "3",
        4 => "4",
        5 => "5",
        6 => "6",
        7 => "7",
        8 => "8",
        _ => "9",
    }
}

/// Renders a number in decimal.
fn u64_to_string(n: u64) -> (r: String)
    ensures
        r@ == spec_decimal(n as nat),
    decreases n,
{
    if n < 10 {
        digit_str(n).to_owned()
    } else {
        let prefix = u64_to_string(n / 10);
        prefix.concat(digit_str(n % 10))
    }
}

/// The comment line for one branch of the stack: its pull request number,
/// with a marker on the branch the comment belongs to; branches without a
/// pull request contribute nothing.
pub open spec fn spec_comment_line(tree: StackTree, current: Seq<char>, b: Seq<char>) -> Seq<
    char,
> {
    match tree.node(b).remote {
        Some(m) => "* #"@ + spec_decimal(m.pr_number as nat) + (if b == current {
            " \u{1F448}"@
        } else {
            Seq::empty()
        }) + "\n"@,
        None => Seq::empty(),
    }
}

/// The comment lines for stack positions 1 up to `k`, in that order: the
/// stack is listed trunk-to-tip.
pub open spec fn spec_comment_lines(
    tree: StackTree,
    current: Seq<char>,
    stack: Seq<Seq<char>>,
    k: int,
) -> Seq<char>
    decreases k,
{
    if k <= 0 {
        Seq::empty()
    } else {
        spec_comment_lines(tree, current, stack, k - 1) + spec_comment_line(tree, current, stack[k])
    }
}

/// The full navigation comment: a heading, one line per submitted branch
/// from the trunk towards the tip, the trunk itself, and a sign-off.
pub open spec fn spec_render_comment(
    tree: StackTree,
    current: Seq<char>,
    stack: Seq<Seq<char>>,
) -> Seq<char> {
    "## \u{1F4DA} $\\text{Stack Overview}$\n\nPulls submitted in this stack:\n"@
        + spec_comment_lines(tree, current, stack, stack.len() - 1) + "* `"@ + tree.trunk_name@
        + "`\n"@ + "\n_This comment was automatically generated by `st`._"@
}

/// Renders the navigation comment for `current_branch` over the given
/// stack: every submitted branch of the stack is listed trunk-to-tip by
/// pull request number, the branch the comment belongs to is marked, and
/// the trunk closes the list.
pub fn render_pr_comment(tree: &StackTree, current_branch: &str, stack: &Vec<String>) -> (r:
    Result<String, StError>)
    requires
        tree.wf(),
    ensures
        r is Ok <==> (forall|k: int| 1 <= k < stack@.len() ==> tree.has(#[trigger] stack@[k]@)),
        r matches Ok(c) ==> c@ == spec_render_comment(
            *tree,
            current_branch@,
            stack@.map_values(|s: String| s@),
        ),
        r matches Err(e) ==> (e matches StError::BranchNotTracked(n) && !tree.has(n@)),
{
    let ghost sv = stack@.map_values(|s: String| s@);
    let current = current_branch.to_owned();
    let mut comment =
        "## \u{1F4DA} $\\text{Stack Overview}$\n\nPulls submitted in this stack:\n".to_owned();
    let len = stack.len();
    let mut k: usize = 1;
    while k < len
        invariant
            tree.wf(),
            len == stack@.len(),
            sv == stack@.map_values(|s: String| s@),
            current@ == current_branch@,
            1 <= k,
            k <= len || len == 0,
            len == 0 ==> k == 1,
            comment@ == "## \u{1F4DA} $\\text{Stack Overview}$\n\nPulls submitted in this stack:\n"@
                + spec_comment_lines(*tree, current_branch@, sv, k as int - 1),
            forall|x: int| 1 <= x < k ==> tree.has(#[trigger] stack@[x]@),
        decreases len - k,
    {
        let ghost pre = comment@;
        let node = match tree.get(stack[k].as_str()) {
            Some(n) => n,
            None => {
                return Err(StError::BranchNotTracked(stack[k].clone()));
            },
        };
        match &node.remote {
            Some(m) => {
                comment.append("* #");
                let num = u64_to_string(m.pr_number);
                comment.append(num.as_str());
                let marked = stack[k] == current;
                if marked {
                    comment.append(" \u{1F448}");
                }
                comment.append("\n");
                proof {
                    assert(sv[k as int] == stack@[k as int]@);
                    assert(spec_comment_line(*tree, current_branch@, sv[k as int]) == "* #"@
                        + spec_decimal(m.pr_number as nat) + (if sv[k as int] == current_branch@ {
                        " \u{1F448}"@
                    } else {
                        Seq::empty()
                    }) + "\n"@);
                    assert(comment@ == pre + spec_comment_line(*tree, current_branch@, sv[k as int]));
                    assert(comment@ == "## \u{1F4DA} $\\text{Stack Overview}$\n\nPulls submitted in this stack:\n"@
                        + spec_comment_lines(*tree, current_branch@, sv, k as int)) by {
                        assert(pre + spec_comment_line(*tree, current_branch@, sv[k as int])
                            =~= "## \u{1F4DA} $\\text{Stack Overview}$\n\nPulls submitted in this stack:\n"@
                            + spec_comment_lines(*tree, current_branch@, sv, k as int));
                    }
                }
            },
            None => {
                proof {
                    assert(sv[k as int] == stack@[k as int]@);
                    assert(spec_comment_line(*tree, current_branch@, sv[k as int])
                        == Seq::<char>::empty());
                    assert(comment@ == "## \u{1F4DA} $\\text{Stack Overview}$\n\nPulls submitted in this stack:\n"@
                        + spec_comment_lines(*tree, current_branch@, sv, k as int)) by {
                        assert(pre + spec_comment_line(*tree, current_branch@, sv[k as int])
                            =~= pre);
                    }
                }
            },
        }
        k = k + 1;
    }
    let ghost body = comment@;
    comment.append("* `");
    comment.append(tree.trunk_name.as_str());
    comment.append("`\n");
    comment.append("\n_This comment was automatically generated by `st`._");
    proof {
        assert(sv.len() == stack@.len());
        assert(body == "## \u{1F4DA} $\\text{Stack Overview}$\n\nPulls submitted in this stack:\n"@
            + spec_comment_lines(*tree, current_branch@, sv, sv.len() - 1)) by {
            if len == 0 {
                assert(spec_comment_lines(*tree, current_branch@, sv, 0)
                    == Seq::<char>::empty());
                assert(spec_comment_lines(*tree, current_branch@, sv, sv.len() - 1)
                    == Seq::<char>::empty());
            }
        }
        assert(comment@ == spec_render_comment(*tree, current_branch@, sv));
    }
    Ok(comment)
}

/// The first position at or after `from` holding `c`, or the length of
/// `s` when there is none.
pub open spec fn spec_find(s: Seq<char>, c: char, from: int) -> int
    decreases s.len() - from,
    when 0 <= from <= s.len()
{
    if from >= s.len() {
        s.len() as int
    } else if s[from] == c {
        from
    } else {
        spec_find(s, c, from + 1)
    }
}

/// The last position strictly before `upto` holding `c`, or -1 when there
/// is none.
pub open spec fn spec_rfind(s: Seq<char>, c: char, upto: int) -> int
    decreases upto,
    when 0 <= upto <= s.len()
{
    if upto <= 0 {
        -1
    } else if s[upto - 1] == c {
        upto - 1
    } else {
        spec_rfind(s, c, upto - 1)
    }
}

/// `s` with every trailing repetition of `.git` removed.
pub open spec fn spec_trim_git(s: Seq<char>) -> Seq<char>
    decreases s.len(),
{
    if s.len() >= 4 && s.subrange(s.len() - 4, s.len() as int) == ".git"@ {
        spec_trim_git(s.subrange(0, s.len() - 4))
    } else {
        s
    }
}

/// The owner and repository named by a remote URL: for an SSH URL the two
/// path segments after the colon, for an HTTPS URL the last two path
/// segments; the repository is read up to a second separator and loses
/// any trailing `.git`. `None` when the URL fits neither form.
pub open spec fn spec_owner_repo(url: Seq<char>) -> Option<(Seq<char>, Seq<char>)> {
    if url.len() >= 4 && url.subrange(0, 4) == "git@"@ {
        let c1 = spec_find(url, ':', 0);
        if c1 == url.len() {
            None
        } else {
            let c2 = spec_find(url, ':', c1 + 1);
            let part = url.subrange(c1 + 1, c2);
            let s1 = spec_find(part, '/', 0);
            if s1 == part.len() {
                None
            } else {
                let s2 = spec_find(part, '/', s1 + 1);
                Some((part.subrange(0, s1), spec_trim_git(part.subrange(s1 + 1, s2))))
            }
        }
    } else if url.len() >= 8 && url.subrange(0, 8) == "https://"@ {
        let r1 = spec_rfind(url, '/', url.len() as int);
        let r2 = spec_rfind(url, '/', r1);
        Some((url.subrange(r2 + 1, r1), spec_trim_git(url.subrange(r1 + 1, url.len() as int))))
    } else {
        None
    }
}

/// A position holding `c` below the bound keeps the backward scan from
/// coming up empty.
proof fn lemma_rfind_finds(s: Seq<char>, c: char, j: int, upto: int)
    requires
        0 <= j < upto <= s.len(),
        s[j] == c,
    ensures
        spec_rfind(s, c, upto) >= j,
    decreases upto,
{
    if upto - 1 != j && s[upto - 1] != c {
        lemma_rfind_finds(s, c, j, upto - 1);
    }
}

/// Scans forward for a character.
fn find_from(s: &str, c: char, from: usize) -> (r: usize)
    requires
        from <= s@.len(),
    ensures
        from <= r <= s@.len(),
        r == spec_find(s@, c, from as int),
    {
    let n = s.unicode_len();
    let mut i = from;
    while i < n
        invariant
            from <= i <= n,
            n == s@.len(),
            spec_find(s@, c, from as int) == spec_find(s@, c, i as int),
        decreases n - i,
    {
        if s.get_char(i) == c {
            return i;
        }
        i = i + 1;
    }
    n
}

/// Scans backward for a character.
fn rfind_before(s: &str, c: char, upto: usize) -> (r: Option<usize>)
    requires
        upto <= s@.len(),
    ensures
        match r {
            Some(i) => i < upto && i == spec_rfind(s@, c, upto as int),
            None => spec_rfind(s@, c, upto as int) == -1,
        },
    {
    let mut i = upto;
    while i > 0
        invariant
            i <= upto <= s@.len(),
            spec_rfind(s@, c, upto as int) == spec_rfind(s@, c, i as int),
        decreases i,
    {
        i = i - 1;
        if s.get_char(i) == c {
            return Some(i);
        }
    }
    None
}

/// Whether `s` starts with the prefix.
fn has_prefix(s: &str, prefix: &str) -> (b: bool)
    ensures
        b == (prefix@.len() <= s@.len() && s@.subrange(0, prefix@.len() as int) == prefix@),
    {
    let pn = prefix.unicode_len();
    let n = s.unicode_len();
    if pn > n {
        proof {
            assert(!(prefix@.len() <= s@.len()));
        }
        return false;
    }
    let mut i: usize = 0;
    while i < pn
        invariant
            i <= pn <= n,
            pn == prefix@.len(),
            n == s@.len(),
            forall|j: int| 0 <= j < i ==> s@[j] == prefix@[j],
        decreases pn - i,
    {
        if !(s.get_char(i) == prefix.get_char(i)) {
            proof {
                assert(s@.subrange(0, pn as int)[i as int] != prefix@[i as int]);
            }
            return false;
        }
        i = i + 1;
    }
    proof {
        assert(s@.subrange(0, pn as int) =~= prefix@);
    }
    true
}

/// Removes every trailing `.git` from a path segment.
fn trim_git(s: &str) -> (r: String)
    ensures
        r@ == spec_trim_git(s@),
    {
    let n = s.unicode_len();
    proof {
        assert(s@.subrange(0, n as int) =~= s@);
    }
    let mut end = n;
    while end >= 4 && s.get_char(end - 4) == '.' && s.get_char(end - 3) == 'g' && s.get_char(
        end - 2,
    ) == 'i' && s.get_char(end - 1) == 't'
        invariant
            end <= n,
            n == s@.len(),
            spec_trim_git(s@) == spec_trim_git(s@.subrange(0, end as int)),
        decreases end,
    {
        proof {
            reveal_strlit(".git");
            let cur = s@.subrange(0, end as int);
            assert(cur.subrange(cur.len() - 4, cur.len() as int) =~= ".git"@);
            assert(cur.subrange(0, cur.len() - 4) =~= s@.subrange(0, end as int - 4));
        }
        end = end - 4;
    }
    proof {
        reveal_strlit(".git");
        let cur = s@.subrange(0, end as int);
        if cur.len() >= 4 && cur.subrange(cur.len() - 4, cur.len() as int) == ".git"@ {
            assert(".git"@[0] == '.' && ".git"@[1] == 'g' && ".git"@[2] == 'i' && ".git"@[3]
                == 't');
            assert(cur.subrange(cur.len() - 4, cur.len() as int)[0] == cur[cur.len() - 4]);
            assert(cur.subrange(cur.len() - 4, cur.len() as int)[1] == cur[cur.len() - 3]);
            assert(cur.subrange(cur.len() - 4, cur.len() as int)[2] == cur[cur.len() - 2]);
            assert(cur.subrange(cur.len() - 4, cur.len() as int)[3] == cur[cur.len() - 1]);
            assert(cur[cur.len() - 4] == s@[end - 4] && cur[cur.len() - 3] == s@[end - 3]
                && cur[cur.len() - 2] == s@[end - 2] && cur[cur.len() - 1] == s@[end - 1]);
            assert(false);
        }
        assert(spec_trim_git(cur) == cur);
    }
    s.substring_char(0, end).to_owned()
}

/// The message reported for a remote URL that cannot be decoded.
pub open spec fn spec_owner_repo_error(url: Seq<char>) -> Seq<char> {
    if url.len() >= 4 && url.subrange(0, 4) == "git@"@ {
        if spec_find(url, ':', 0) == url.len() {
            "Invalid SSH URL format."@
        } else {
            "Repository not found while decoding remote URL."@
        }
    } else {
        "Unsupported remote URL format."@
    }
}

/// Parses the owner and repository from a remote URL, accepting the SSH
/// form and the HTTPS form and rejecting anything else; a trailing `.git`
/// on the repository is dropped.
pub fn owner_and_repository(url: &str) -> (r: Result<(String, String), StError>)
    ensures
        r is Ok <==> spec_owner_repo(url@) is Some,
        r matches Ok(p) ==> (spec_owner_repo(url@) matches Some(q) && p.0@ == q.0 && p.1@
            == q.1),
        r matches Err(e) ==> (spec_owner_repo(url@) is None && (e
            matches StError::DecodingError(m) && m@ == spec_owner_repo_error(url@))),
    {
    if has_prefix(url, "git@") {
        let n = url.unicode_len();
        let c1 = find_from(url, ':', 0);
        if c1 == n {
            proof {
                reveal_strlit("git@");
                assert(url@.len() >= 4 && url@.subrange(0, 4) == "git@"@);
                assert(spec_find(url@, ':', 0) == url@.len());
                assert(spec_owner_repo(url@) is None);
            }
            return Err(StError::DecodingError("Invalid SSH URL format.".to_owned()));
        }
        let c2 = find_from(url, ':', c1 + 1);
        let part = url.substring_char(c1 + 1, c2);
        let plen = part.unicode_len();
        let s1 = find_from(part, '/', 0);
        if s1 == plen {
            proof {
                reveal_strlit("git@");
                assert(part@ == url@.subrange(c1 as int + 1, c2 as int));
                assert(spec_owner_repo(url@) is None);
            }
            return Err(
                StError::DecodingError(
                    "Repository not found while decoding remote URL.".to_owned(),
                ),
            );
        }
        let s2 = find_from(part, '/', s1 + 1);
        let org = part.substring_char(0, s1).to_owned();
        let repo = trim_git(part.substring_char(s1 + 1, s2));
        proof {
            reveal_strlit("git@");
            assert(part@ == url@.subrange(c1 as int + 1, c2 as int));
            assert(spec_owner_repo(url@) matches Some(q) && org@ == q.0 && repo@ == q.1);
        }
        Ok((org, repo))
    } else if has_prefix(url, "https://") {
        let n = url.unicode_len();
        proof {
            reveal_strlit("https://");
            assert(url@.subrange(0, 8) == "https://"@);
            assert("https://"@[6] == '/' && "https://"@[7] == '/');
            assert(url@.subrange(0, 8)[6] == url@[6]);
            assert(url@.subrange(0, 8)[7] == url@[7]);
        }
        let r1 = match rfind_before(url, '/', n) {
            Some(i) => i,
            None => {
                // an HTTPS URL carries its scheme separator
                proof {
                    lemma_rfind_finds(url@, '/', 7, n as int);
                    assert(false);
                }
                return Err(StError::DecodingError("Unsupported remote URL format.".to_owned()));
            },
        };
        let r2 = match rfind_before(url, '/', r1) {
            Some(i) => i,
            None => {
                proof {
                    lemma_rfind_finds(url@, '/', 7, n as int);
                    lemma_rfind_finds(url@, '/', 6, r1 as int);
                    assert(false);
                }
                return Err(StError::DecodingError("Unsupported remote URL format.".to_owned()));
            },
        };
        let org = url.substring_char(r2 + 1, r1).to_owned();
        let repo = trim_git(url.substring_char(r1 + 1, n));
        proof {
            reveal_strlit("git@");
            reveal_strlit("https://");
            assert(spec_owner_repo(url@) matches Some(q) && org@ == q.0 && repo@ == q.1);
        }
        Ok((org, repo))
    } else {
        proof {
            reveal_strlit("git@");
            reveal_strlit("https://");
            assert(spec_owner_repo(url@) is None);
        }
        Err(StError::DecodingError("Unsupported remote URL format.".to_owned()))
    }
}

} // verus!
