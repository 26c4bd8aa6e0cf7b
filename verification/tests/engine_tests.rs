use repowatch::db::{insert_batch_issues, insert_batch_prs, insert_one_issue, insert_one_pr};
use repowatch::engine::{bucket_numbers, settle_pr, update_issue_status, update_pr_status};
use repowatch::store::Store;
use repowatch::types::{Category, Issue, PullRequest, ReconcileError, Status};

fn temp_store() -> Store {
    let db = sled::Config::new().temporary(true).open().unwrap();
    Store::new(db)
}

fn issue(number: u32) -> Issue {
    Issue {
        issue_number: number,
        title: format!("issue {number}").into_bytes(),
        body: None,
        created_at: 1_000,
        updated_at: 1_000,
        closed_at: None,
        status: Status::Open,
        url: format!("https://example.com/o/r/issues/{number}").into_bytes(),
    }
}

fn pr(number: u64) -> PullRequest {
    PullRequest {
        pr_number: number,
        title: Some(format!("pr {number}").into_bytes()),
        body: None,
        created_at: Some(1_000),
        updated_at: Some(1_000),
        merged_at: None,
        closed_at: None,
        status: Some(Status::Open),
        url: Some(format!("https://example.com/o/r/pull/{number}").into_bytes()),
    }
}

fn sorted(mut v: Vec<u64>) -> Vec<u64> {
    v.sort();
    v
}

#[test]
fn issues_first_run_persists_live_set() {
    let mut store = temp_store();
    let org = b"acme".to_vec();
    let repo = b"docs".to_vec();
    let live = vec![issue(1), issue(2), issue(3)];
    let closed = update_issue_status(&mut store, &org, &repo, &live).unwrap();
    assert!(closed.is_empty());
    let nums = bucket_numbers(&store, &org, &repo, Category::Issue, Status::Open).unwrap();
    assert_eq!(sorted(nums), vec![1, 2, 3]);
}

#[test]
fn issues_departed_item_moves_to_closed() {
    let mut store = temp_store();
    let org = b"acme".to_vec();
    let repo = b"docs".to_vec();
    update_issue_status(&mut store, &org, &repo, &vec![issue(1), issue(2), issue(3)]).unwrap();
    // the remote no longer lists issue 2 as open
    let closed = update_issue_status(&mut store, &org, &repo, &vec![issue(1), issue(3)]).unwrap();
    assert_eq!(closed.len(), 1);
    assert_eq!(closed[0].issue_number, 2);
    assert_eq!(closed[0].status, Status::Closed);
    let open = bucket_numbers(&store, &org, &repo, Category::Issue, Status::Open).unwrap();
    assert_eq!(sorted(open), vec![1, 3]);
    let closed_bucket =
        bucket_numbers(&store, &org, &repo, Category::Issue, Status::Closed).unwrap();
    assert_eq!(sorted(closed_bucket), vec![2]);
}

#[test]
fn issues_second_run_reports_nothing() {
    let mut store = temp_store();
    let org = b"acme".to_vec();
    let repo = b"docs".to_vec();
    let live = vec![issue(1), issue(3)];
    update_issue_status(&mut store, &org, &repo, &vec![issue(1), issue(2), issue(3)]).unwrap();
    let first = update_issue_status(&mut store, &org, &repo, &live).unwrap();
    assert_eq!(first.len(), 1);
    // nothing changed remotely: the second run detects no transition
    let second = update_issue_status(&mut store, &org, &repo, &live).unwrap();
    assert!(second.is_empty());
}

#[test]
fn transition_detection_moves_merged_pr() {
    let mut store = temp_store();
    let org = b"acme".to_vec();
    let repo = b"engine".to_vec();
    let live = vec![pr(1), pr(2), pr(3)];
    let (fresh, departed) = update_pr_status(&mut store, &org, &repo, &live).unwrap();
    assert_eq!(sorted(fresh.iter().map(|p| p.pr_number).collect()), vec![1, 2, 3]);
    assert!(departed.is_empty());

    // the live set shrinks to {1, 3}; item 2's fresh detail shows it merged
    let (fresh, departed) =
        update_pr_status(&mut store, &org, &repo, &vec![pr(1), pr(3)]).unwrap();
    assert!(fresh.is_empty());
    assert_eq!(departed.len(), 1);
    assert_eq!(departed[0].pr_number, 2);

    let mut events = Vec::new();
    for d in departed {
        let e = settle_pr(&mut store, &org, &repo, d, Some(2_000), Some(2_000)).unwrap();
        if let Some(e) = e {
            events.push(e);
        }
    }
    assert_eq!(events.len(), 1);
    assert_eq!(events[0].number, 2);
    assert_eq!(events[0].category, Category::PullRequest);
    assert_eq!(events[0].from_status, Status::Open);
    assert_eq!(events[0].to_status, Status::Merged);
    assert_eq!(events[0].organization, b"acme".to_vec());
    assert_eq!(events[0].repository, b"engine".to_vec());

    let open = bucket_numbers(&store, &org, &repo, Category::PullRequest, Status::Open).unwrap();
    assert_eq!(sorted(open), vec![1, 3]);
    let merged =
        bucket_numbers(&store, &org, &repo, Category::PullRequest, Status::Merged).unwrap();
    assert_eq!(sorted(merged), vec![2]);
}

#[test]
fn closed_pr_goes_to_closed_bucket() {
    let mut store = temp_store();
    let org = b"acme".to_vec();
    let repo = b"engine".to_vec();
    update_pr_status(&mut store, &org, &repo, &vec![pr(7)]).unwrap();
    let (_, departed) = update_pr_status(&mut store, &org, &repo, &Vec::new()).unwrap();
    assert_eq!(departed.len(), 1);
    let e = settle_pr(&mut store, &org, &repo, departed.into_iter().next().unwrap(), None,
        Some(2_000))
        .unwrap()
        .unwrap();
    assert_eq!(e.to_status, Status::Closed);
    let closed =
        bucket_numbers(&store, &org, &repo, Category::PullRequest, Status::Closed).unwrap();
    assert_eq!(closed, vec![7]);
}

#[test]
fn prs_second_run_reports_nothing() {
    let mut store = temp_store();
    let org = b"acme".to_vec();
    let repo = b"engine".to_vec();
    update_pr_status(&mut store, &org, &repo, &vec![pr(1), pr(2)]).unwrap();
    let live = vec![pr(1)];
    let (_, departed) = update_pr_status(&mut store, &org, &repo, &live).unwrap();
    for d in departed {
        settle_pr(&mut store, &org, &repo, d, Some(2_000), Some(2_000)).unwrap();
    }
    // nothing changed remotely: the second run finds nothing departed and
    // nothing first-seen
    let (fresh, departed) = update_pr_status(&mut store, &org, &repo, &live).unwrap();
    assert!(fresh.is_empty());
    assert!(departed.is_empty());
}

#[test]
fn still_open_detail_moves_nothing() {
    let mut store = temp_store();
    let org = b"acme".to_vec();
    let repo = b"engine".to_vec();
    update_pr_status(&mut store, &org, &repo, &vec![pr(4)]).unwrap();
    let (_, departed) = update_pr_status(&mut store, &org, &repo, &Vec::new()).unwrap();
    assert_eq!(departed.len(), 1);
    // the fresh detail reports neither merge nor close: no event, no move
    let e = settle_pr(&mut store, &org, &repo, departed.into_iter().next().unwrap(), None, None)
        .unwrap();
    assert!(e.is_none());
    let open = bucket_numbers(&store, &org, &repo, Category::PullRequest, Status::Open).unwrap();
    assert_eq!(open, vec![4]);
}

#[test]
fn merge_without_close_is_flagged() {
    let mut store = temp_store();
    let org = b"acme".to_vec();
    let repo = b"engine".to_vec();
    let r = settle_pr(&mut store, &org, &repo, pr(9), Some(2_000), None);
    assert_eq!(r, Err(ReconcileError::Classification));
}

#[test]
fn no_double_membership_across_runs() {
    let mut store = temp_store();
    let org = b"acme".to_vec();
    let repo = b"engine".to_vec();
    update_pr_status(&mut store, &org, &repo, &vec![pr(1), pr(2)]).unwrap();
    let (_, departed) = update_pr_status(&mut store, &org, &repo, &vec![pr(2)]).unwrap();
    for d in departed {
        settle_pr(&mut store, &org, &repo, d, Some(2_000), Some(2_000)).unwrap();
    }
    // the remote reopens item 1: it must return to open, not sit in two
    // buckets
    update_pr_status(&mut store, &org, &repo, &vec![pr(1), pr(2)]).unwrap();
    let open =
        sorted(bucket_numbers(&store, &org, &repo, Category::PullRequest, Status::Open).unwrap());
    let merged =
        sorted(bucket_numbers(&store, &org, &repo, Category::PullRequest, Status::Merged).unwrap());
    let closed =
        sorted(bucket_numbers(&store, &org, &repo, Category::PullRequest, Status::Closed).unwrap());
    assert_eq!(open, vec![1, 2]);
    for n in &open {
        assert!(!merged.contains(n) && !closed.contains(n));
    }
    for n in &merged {
        assert!(!closed.contains(n));
    }
}

#[test]
fn malformed_record_surfaces_as_encoding_error() {
    let mut store = temp_store();
    let org = b"acme".to_vec();
    let repo = b"docs".to_vec();
    // plant a pull-request record inside the issue open bucket: its bytes
    // are no issue record, so the next issue pass must refuse to run
    let alien = PullRequest {
        created_at: Some(i64::MAX),
        ..pr(7)
    };
    insert_one_pr(&mut store, &b"acme#docs#issues#open".to_vec(), &alien).unwrap();
    let r = update_issue_status(&mut store, &org, &repo, &Vec::new());
    assert_eq!(r, Err(ReconcileError::Encoding));
}

#[test]
fn archived_issue_is_read_back_by_reconcile() {
    let mut store = temp_store();
    let org = b"acme".to_vec();
    let repo = b"docs".to_vec();
    // archive an open issue exactly where the engine keeps its open bucket
    insert_one_issue(&mut store, &b"acme#docs#issues#open".to_vec(), &issue(12)).unwrap();
    // the remote no longer lists it: the engine must rediscover and close it
    let closed = update_issue_status(&mut store, &org, &repo, &Vec::new()).unwrap();
    assert_eq!(closed.len(), 1);
    assert_eq!(closed[0].issue_number, 12);
    assert_eq!(closed[0].title, b"issue 12".to_vec());
}

#[test]
fn batch_archives_feed_the_next_pass() {
    let mut store = temp_store();
    let org = b"acme".to_vec();
    let repo = b"docs".to_vec();
    insert_batch_issues(
        &mut store,
        &b"acme#docs#issues#open".to_vec(),
        &vec![issue(1), issue(2)],
    )
    .unwrap();
    insert_batch_prs(&mut store, &b"acme#docs#prs#open".to_vec(), &vec![pr(5)]).unwrap();
    let open = bucket_numbers(&store, &org, &repo, Category::Issue, Status::Open).unwrap();
    assert_eq!(sorted(open), vec![1, 2]);
    let open_prs =
        bucket_numbers(&store, &org, &repo, Category::PullRequest, Status::Open).unwrap();
    assert_eq!(open_prs, vec![5]);
    // both archived issues are still live: nothing transitions
    let closed = update_issue_status(&mut store, &org, &repo, &vec![issue(1), issue(2)]).unwrap();
    assert!(closed.is_empty());
}
