use vstd::prelude::*;

use crate::byteseq::{bytes_contains, contains_bytes};
use crate::types::{Issue, PullRequest};

verus! {

/// What to do with one item of a page that is sorted descending by the
/// timestamp the feed was ordered on.
#[derive(Clone, Copy, Debug, PartialEq, Eq, Structural)]
pub enum Admit {
    /// The item lies in the requested window.
    Keep,
    /// The item lies outside the window, but later items may still qualify.
    Skip,
    /// No later item can qualify: stop fetching pages.
    StopPaging,
}

/// The URL path segment that marks a record as a pull request.
pub open spec fn pull_marker() -> Seq<u8> {
    seq![0x70u8, 0x75u8, 0x6cu8, 0x6cu8]
}

/// The URL path segment that marks a record as an issue.
pub open spec fn issues_marker() -> Seq<u8> {
    seq![0x69u8, 0x73u8, 0x73u8, 0x75u8, 0x65u8, 0x73u8]
}

pub open spec fn url_marks_pull(url: Seq<u8>) -> bool {
    contains_bytes(url, pull_marker())
}

pub open spec fn url_marks_issue(url: Seq<u8>) -> bool {
    contains_bytes(url, issues_marker())
}

/// Whether a canonical URL names a pull request. Path inspection is a
/// documented heuristic: the issue feed of the remote API may include
/// pull-request records, recognisable only by their URL.
pub fn is_pull_url(url: &Vec<u8>) -> (r: bool)
    ensures
        r == url_marks_pull(url@),
{
    let mut needle: Vec<u8> = Vec::new();
    needle.push(0x70);
    needle.push(0x75);
    needle.push(0x6c);
    needle.push(0x6c);
    assert(needle@ =~= pull_marker());
    bytes_contains(url, &needle)
}

/// Whether a canonical URL names an issue. The pull-request feed may include
/// issue-shaped records, recognisable only by their URL.
pub fn is_issue_url(url: &Vec<u8>) -> (r: bool)
    ensures
        r == url_marks_issue(url@),
{
    let mut needle: Vec<u8> = Vec::new();
    needle.push(0x69);
    needle.push(0x73);
    needle.push(0x73);
    needle.push(0x75);
    needle.push(0x65);
    needle.push(0x73);
    assert(needle@ =~= issues_marker());
    bytes_contains(url, &needle)
}

/// The windowing decision for an issue in a feed sorted descending by
/// creation date: too new is skipped, in-window is kept, and the first item
/// strictly older than the window ends the pagination, because every later
/// item is older still.
pub open spec fn spec_admit_issue(created: i64, from: i64, to: i64) -> Admit {
    if created > to {
        Admit::Skip
    } else if created >= from {
        Admit::Keep
    } else {
        Admit::StopPaging
    }
}

pub fn admit_issue(created: i64, from: i64, to: i64) -> (r: Admit)
    ensures
        r == spec_admit_issue(created, from, to),
{
    if created > to {
        Admit::Skip
    } else if created >= from {
        Admit::Keep
    } else {
        Admit::StopPaging
    }
}

/// The windowing decision for a merged pull request in a feed sorted
/// descending by update date, where the window is meant on the merge date
/// and the merge date never exceeds the update date. Five situations arise:
/// merge and update both in-window, or merge in-window with a newer update,
/// are kept; a merge older than the window whose update is newer is skipped;
/// merge and update both older end the pagination; merge and update both
/// newer than the window are skipped. An absent update date counts as older
/// than everything.
pub open spec fn spec_admit_merged_pr(merged: i64, updated: Option<i64>, from: i64, to: i64) -> Admit {
    if merged < from && (match updated {
        Option::None => true,
        Option::Some(u) => u < from,
    }) {
        Admit::StopPaging
    } else if from <= merged && merged <= to {
        Admit::Keep
    } else {
        Admit::Skip
    }
}

pub fn admit_merged_pr(merged: i64, updated: Option<i64>, from: i64, to: i64) -> (r: Admit)
    ensures
        r == spec_admit_merged_pr(merged, updated, from, to),
{
    let updated_older = match updated {
        Option::None => true,
        Option::Some(u) => u < from,
    };
    if merged < from && updated_older {
        Admit::StopPaging
    } else if from <= merged && merged <= to {
        Admit::Keep
    } else {
        Admit::Skip
    }
}

/// Whether an item of the issue feed is discarded before windowing: records
/// whose URL names a pull request do not belong in issue results.
pub open spec fn spec_issue_excluded(it: Issue) -> bool {
    url_marks_pull(it.url@)
}

/// Whether an item of the merged-pull-request feed is discarded before
/// windowing: issue-shaped records do not belong there, and an item without
/// a merge date cannot satisfy a merge-date window.
pub open spec fn spec_merged_pr_excluded(p: PullRequest) -> bool {
    (p.url matches Some(u) && url_marks_issue(u@)) || p.merged_at is None
}

/// Whether an item of the live open pull-request feed is discarded: only
/// issue-shaped records are excluded there.
pub open spec fn spec_live_pr_excluded(p: PullRequest) -> bool {
    p.url matches Some(u) && url_marks_issue(u@)
}

/// The issues of one page that a creation-date window keeps, in page order,
/// cut short at the first non-excluded item older than the window.
pub open spec fn issue_page_kept(items: Seq<Issue>, from: i64, to: i64) -> Seq<Issue>
    decreases items.len(),
{
    if items.len() == 0 {
        Seq::empty()
    } else {
        let it = items[0];
        let rest = items.subrange(1, items.len() as int);
        if spec_issue_excluded(it) {
            issue_page_kept(rest, from, to)
        } else if spec_admit_issue(it.created_at, from, to) == Admit::StopPaging {
            Seq::empty()
        } else if spec_admit_issue(it.created_at, from, to) == Admit::Keep {
            seq![it] + issue_page_kept(rest, from, to)
        } else {
            issue_page_kept(rest, from, to)
        }
    }
}

/// Whether a page of the issue feed proves that pagination can end: it holds
/// a non-excluded item strictly older than the window.
pub open spec fn issue_page_stops(items: Seq<Issue>, from: i64, to: i64) -> bool
    decreases items.len(),
{
    if items.len() == 0 {
        false
    } else {
        let it = items[0];
        let rest = items.subrange(1, items.len() as int);
        if spec_issue_excluded(it) {
            issue_page_stops(rest, from, to)
        } else if spec_admit_issue(it.created_at, from, to) == Admit::StopPaging {
            true
        } else {
            issue_page_stops(rest, from, to)
        }
    }
}

/// Applies exclusion and creation-date windowing to one page of an issue
/// feed sorted descending by creation date. Returns the kept items in page
/// order and whether pagination must stop; once an item older than the
/// window is seen, no later item of the page is taken.
pub fn process_issue_page(page: Vec<Issue>, from: i64, to: i64) -> (r: (Vec<Issue>, bool))
    ensures
        r.0@ == issue_page_kept(page@, from, to),
        r.1 == issue_page_stops(page@, from, to),
{
    let mut rest = page;
    let mut out: Vec<Issue> = Vec::new();
    loop
        invariant
            issue_page_kept(page@, from, to) == out@ + issue_page_kept(rest@, from, to),
            issue_page_stops(page@, from, to) == issue_page_stops(rest@, from, to),
        decreases rest@.len(),
    {
        if rest.len() == 0 {
            assert(out@ + issue_page_kept(rest@, from, to) =~= out@);
            return (out, false);
        }
        let ghost before = rest@;
        let it = rest.remove(0);
        proof {
            assert(rest@ =~= before.subrange(1, before.len() as int));
        }
        if is_pull_url(&it.url) {
            // a pull request leaked into the issue feed: drop it
        } else {
            let a = admit_issue(it.created_at, from, to);
            if a == Admit::StopPaging {
                assert(issue_page_kept(before, from, to) =~= Seq::<Issue>::empty());
                assert(out@ + issue_page_kept(before, from, to) =~= out@);
                return (out, true);
            } else if a == Admit::Keep {
                let ghost pre = out@;
                out.push(it);
                proof {
                    assert(issue_page_kept(before, from, to) =~= seq![before[0]]
                        + issue_page_kept(rest@, from, to));
                    assert(pre + issue_page_kept(before, from, to) =~= out@ + issue_page_kept(
                        rest@,
                        from,
                        to,
                    ));
                }
            }
        }
    }
}

/// The merged pull requests of one page that a merge-date window keeps, in
/// page order, cut short at the first non-excluded item whose merge and
/// update dates are both older than the window.
pub open spec fn pr_page_kept(items: Seq<PullRequest>, from: i64, to: i64) -> Seq<PullRequest>
    decreases items.len(),
{
    if items.len() == 0 {
        Seq::empty()
    } else {
        let p = items[0];
        let rest = items.subrange(1, items.len() as int);
        if spec_merged_pr_excluded(p) {
            pr_page_kept(rest, from, to)
        } else if spec_admit_merged_pr(p.merged_at->0, p.updated_at, from, to)
            == Admit::StopPaging {
            Seq::empty()
        } else if spec_admit_merged_pr(p.merged_at->0, p.updated_at, from, to) == Admit::Keep {
            seq![p] + pr_page_kept(rest, from, to)
        } else {
            pr_page_kept(rest, from, to)
        }
    }
}

/// Whether a page of the pull-request feed proves that pagination can end.
pub open spec fn pr_page_stops(items: Seq<PullRequest>, from: i64, to: i64) -> bool
    decreases items.len(),
{
    if items.len() == 0 {
        false
    } else {
        let p = items[0];
        let rest = items.subrange(1, items.len() as int);
        if spec_merged_pr_excluded(p) {
            pr_page_stops(rest, from, to)
        } else if spec_admit_merged_pr(p.merged_at->0, p.updated_at, from, to)
            == Admit::StopPaging {
            true
        } else {
            pr_page_stops(rest, from, to)
        }
    }
}

/// Applies exclusion and merge-date windowing to one page of a pull-request
/// feed sorted descending by update date. Returns the kept items in page
/// order and whether pagination must stop.
pub fn process_pr_page(page: Vec<PullRequest>, from: i64, to: i64) -> (r: (
    Vec<PullRequest>,
    bool,
))
    ensures
        r.0@ == pr_page_kept(page@, from, to),
        r.1 == pr_page_stops(page@, from, to),
{
    let mut rest = page;
    let mut out: Vec<PullRequest> = Vec::new();
    loop
        invariant
            pr_page_kept(page@, from, to) == out@ + pr_page_kept(rest@, from, to),
            pr_page_stops(page@, from, to) == pr_page_stops(rest@, from, to),
        decreases rest@.len(),
    {
        if rest.len() == 0 {
            assert(out@ + pr_page_kept(rest@, from, to) =~= out@);
            return (out, false);
        }
        let ghost before = rest@;
        let p = rest.remove(0);
        proof {
            assert(rest@ =~= before.subrange(1, before.len() as int));
        }
        let excluded = match (&p.url, &p.merged_at) {
            (_, Option::None) => true,
            (Option::Some(u), _) => is_issue_url(u),
            (Option::None, _) => false,
        };
        if !excluded {
            let merged = match p.merged_at {
                Option::Some(m) => m,
                Option::None => {
                    proof {
                        assert(false);
                    }
                    0
                },
            };
            let a = admit_merged_pr(merged, p.updated_at, from, to);
            if a == Admit::StopPaging {
                assert(pr_page_kept(before, from, to) =~= Seq::<PullRequest>::empty());
                assert(out@ + pr_page_kept(before, from, to) =~= out@);
                return (out, true);
            } else if a == Admit::Keep {
                let ghost pre = out@;
                out.push(p);
                proof {
                    assert(pr_page_kept(before, from, to) =~= seq![before[0]] + pr_page_kept(
                        rest@,
                        from,
                        to,
                    ));
                    assert(pre + pr_page_kept(before, from, to) =~= out@ + pr_page_kept(
                        rest@,
                        from,
                        to,
                    ));
                }
            }
        }
    }
}

/// The issues of one live-feed page that belong in issue results: records
/// whose URL names a pull request are excluded.
pub open spec fn live_issues_kept(items: Seq<Issue>) -> Seq<Issue>
    decreases items.len(),
{
    if items.len() == 0 {
        Seq::empty()
    } else {
        let rest = items.subrange(1, items.len() as int);
        if spec_issue_excluded(items[0]) {
            live_issues_kept(rest)
        } else {
            seq![items[0]] + live_issues_kept(rest)
        }
    }
}

/// Drops pull-request-shaped records from one page of a live issue feed.
pub fn filter_live_issues(page: Vec<Issue>) -> (r: Vec<Issue>)
    ensures
        r@ == live_issues_kept(page@),
{
    let mut rest = page;
    let mut out: Vec<Issue> = Vec::new();
    loop
        invariant
            live_issues_kept(page@) == out@ + live_issues_kept(rest@),
        decreases rest@.len(),
    {
        if rest.len() == 0 {
            assert(out@ + live_issues_kept(rest@) =~= out@);
            return out;
        }
        let ghost before = rest@;
        let it = rest.remove(0);
        proof {
            assert(rest@ =~= before.subrange(1, before.len() as int));
        }
        if !is_pull_url(&it.url) {
            let ghost pre = out@;
            out.push(it);
            proof {
                assert(live_issues_kept(before) =~= seq![before[0]] + live_issues_kept(rest@));
                assert(pre + live_issues_kept(before) =~= out@ + live_issues_kept(rest@));
            }
        }
    }
}

/// The pull requests of one live-feed page that belong in pull-request
/// results: issue-shaped records are excluded.
pub open spec fn live_prs_kept(items: Seq<PullRequest>) -> Seq<PullRequest>
    decreases items.len(),
{
    if items.len() == 0 {
        Seq::empty()
    } else {
        let rest = items.subrange(1, items.len() as int);
        if spec_live_pr_excluded(items[0]) {
            live_prs_kept(rest)
        } else {
            seq![items[0]] + live_prs_kept(rest)
        }
    }
}

/// Drops issue-shaped records from one page of a live pull-request feed.
pub fn filter_live_prs(page: Vec<PullRequest>) -> (r: Vec<PullRequest>)
    ensures
        r@ == live_prs_kept(page@),
{
    let mut rest = page;
    let mut out: Vec<PullRequest> = Vec::new();
    loop
        invariant
            live_prs_kept(page@) == out@ + live_prs_kept(rest@),
        decreases rest@.len(),
    {
        if rest.len() == 0 {
            assert(out@ + live_prs_kept(rest@) =~= out@);
            return out;
        }
        let ghost before = rest@;
        let p = rest.remove(0);
        proof {
            assert(rest@ =~= before.subrange(1, before.len() as int));
        }
        let excluded = match &p.url {
            Option::Some(u) => is_issue_url(u),
            Option::None => false,
        };
        if !excluded {
            let ghost pre = out@;
            out.push(p);
            proof {
                assert(live_prs_kept(before) =~= seq![before[0]] + live_prs_kept(rest@));
                assert(pre + live_prs_kept(before) =~= out@ + live_prs_kept(rest@));
            }
        }
    }
}

} // verus!
