use repowatch::types::{Issue, PullRequest, Status};
use repowatch::window::{
    admit_issue, admit_merged_pr, filter_live_issues, filter_live_prs, is_issue_url, is_pull_url,
    process_issue_page, process_pr_page, Admit,
};

fn issue(number: u32, created_at: i64, url: &str) -> Issue {
    Issue {
        issue_number: number,
        title: b"t".to_vec(),
        body: None,
        created_at,
        updated_at: created_at,
        closed_at: None,
        status: Status::Open,
        url: url.as_bytes().to_vec(),
    }
}

fn pr(number: u64, merged_at: Option<i64>, updated_at: Option<i64>, url: &str) -> PullRequest {
    PullRequest {
        pr_number: number,
        title: None,
        body: None,
        created_at: None,
        updated_at,
        merged_at,
        closed_at: None,
        status: None,
        url: Some(url.as_bytes().to_vec()),
    }
}

const DAY: i64 = 86_400;

#[test]
fn url_markers() {
    assert!(is_pull_url(&b"https://example.com/o/r/pull/7".to_vec()));
    assert!(!is_pull_url(&b"https://example.com/o/r/issues/7".to_vec()));
    assert!(is_issue_url(&b"https://example.com/o/r/issues/7".to_vec()));
    assert!(!is_issue_url(&b"https://example.com/o/r/pull/7".to_vec()));
}

#[test]
fn admit_issue_cases() {
    let from = 10 * DAY;
    let to = 20 * DAY;
    assert_eq!(admit_issue(21 * DAY, from, to), Admit::Skip);
    assert_eq!(admit_issue(20 * DAY, from, to), Admit::Keep);
    assert_eq!(admit_issue(15 * DAY, from, to), Admit::Keep);
    assert_eq!(admit_issue(10 * DAY, from, to), Admit::Keep);
    assert_eq!(admit_issue(10 * DAY - 1, from, to), Admit::StopPaging);
}

#[test]
fn admit_merged_pr_five_situations() {
    let from = 10 * DAY;
    let to = 20 * DAY;
    // merge and update both in the window
    assert_eq!(admit_merged_pr(15 * DAY, Some(16 * DAY), from, to), Admit::Keep);
    // merge in the window, update newer than the window
    assert_eq!(admit_merged_pr(15 * DAY, Some(25 * DAY), from, to), Admit::Keep);
    // merge older than the window, update in the window
    assert_eq!(admit_merged_pr(5 * DAY, Some(15 * DAY), from, to), Admit::Skip);
    // merge and update both older: nothing further can qualify
    assert_eq!(admit_merged_pr(5 * DAY, Some(6 * DAY), from, to), Admit::StopPaging);
    // merge and update both newer than the window
    assert_eq!(admit_merged_pr(25 * DAY, Some(26 * DAY), from, to), Admit::Skip);
    // an absent update date counts as older than everything
    assert_eq!(admit_merged_pr(5 * DAY, None, from, to), Admit::StopPaging);
    assert_eq!(admit_merged_pr(15 * DAY, None, from, to), Admit::Keep);
}

#[test]
fn window_keeps_only_second_item() {
    // A feed sorted descending by update time; the window is [day 8, day 15].
    let page = vec![
        pr(3, Some(20 * DAY), Some(25 * DAY), "https://example.com/o/r/pull/3"),
        pr(2, Some(10 * DAY), Some(10 * DAY), "https://example.com/o/r/pull/2"),
        pr(1, Some(1 * DAY), Some(5 * DAY), "https://example.com/o/r/pull/1"),
    ];
    let (kept, stop) = process_pr_page(page, 8 * DAY, 15 * DAY);
    assert_eq!(kept.len(), 1);
    assert_eq!(kept[0].pr_number, 2);
    assert!(stop);
}

#[test]
fn issue_feed_excludes_pull_request_records() {
    let page = vec![
        issue(1, 15 * DAY, "https://example.com/o/r/issues/1"),
        issue(2, 14 * DAY, "https://example.com/o/r/pull/2"),
        issue(3, 13 * DAY, "https://example.com/o/r/issues/3"),
    ];
    let (kept, stop) = process_issue_page(page, 10 * DAY, 20 * DAY);
    let numbers: Vec<u32> = kept.iter().map(|i| i.issue_number).collect();
    assert_eq!(numbers, vec![1, 3]);
    assert!(!stop);
}

#[test]
fn issue_paging_stops_at_first_item_older_than_from() {
    let page = vec![
        issue(1, 15 * DAY, "https://example.com/o/r/issues/1"),
        issue(2, 9 * DAY, "https://example.com/o/r/issues/2"),
        issue(3, 12 * DAY, "https://example.com/o/r/issues/3"),
    ];
    let (kept, stop) = process_issue_page(page, 10 * DAY, 20 * DAY);
    // item 2 is strictly older than the window: paging must stop there,
    // and item 3, though in the window, is behind the stop.
    assert_eq!(kept.len(), 1);
    assert_eq!(kept[0].issue_number, 1);
    assert!(stop);
}

#[test]
fn live_filters_drop_wrong_category_only() {
    let issues = vec![
        issue(1, 0, "https://example.com/o/r/issues/1"),
        issue(2, 0, "https://example.com/o/r/pull/2"),
    ];
    let kept = filter_live_issues(issues);
    assert_eq!(kept.len(), 1);
    assert_eq!(kept[0].issue_number, 1);

    let prs = vec![
        pr(1, None, None, "https://example.com/o/r/pull/1"),
        pr(2, None, None, "https://example.com/o/r/issues/2"),
    ];
    let kept = filter_live_prs(prs);
    assert_eq!(kept.len(), 1);
    assert_eq!(kept[0].pr_number, 1);
}
