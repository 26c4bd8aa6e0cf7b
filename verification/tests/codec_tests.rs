use repowatch::codec::{decode_issue, decode_pr, encode_issue, encode_pr};
use repowatch::types::{Issue, PullRequest, Status};

#[test]
fn issue_round_trip() {
    let issue = Issue {
        issue_number: 4321,
        title: b"fix the flux capacitor".to_vec(),
        body: Some(b"it drifts\nunder load".to_vec()),
        created_at: 1_669_248_000,
        updated_at: 1_669_300_000,
        closed_at: Some(1_669_310_000),
        status: Status::Closed,
        url: b"https://example.com/o/r/issues/4321".to_vec(),
    };
    let bytes = encode_issue(&issue);
    let back = decode_issue(&bytes).unwrap();
    assert_eq!(back, issue);
}

#[test]
fn issue_round_trip_minimal() {
    let issue = Issue {
        issue_number: 0,
        title: Vec::new(),
        body: None,
        created_at: -1,
        updated_at: i64::MIN,
        closed_at: None,
        status: Status::Open,
        url: Vec::new(),
    };
    let bytes = encode_issue(&issue);
    let back = decode_issue(&bytes).unwrap();
    assert_eq!(back, issue);
}

#[test]
fn pr_round_trip() {
    let pr = PullRequest {
        pr_number: u64::MAX,
        title: Some(b"add widgets".to_vec()),
        body: None,
        created_at: Some(100),
        updated_at: Some(i64::MAX),
        merged_at: Some(200),
        closed_at: Some(201),
        status: Some(Status::Merged),
        url: Some(b"https://example.com/o/r/pull/9".to_vec()),
    };
    let bytes = encode_pr(&pr);
    let back = decode_pr(&bytes).unwrap();
    assert_eq!(back, pr);
}

#[test]
fn pr_round_trip_empty_options() {
    let pr = PullRequest {
        pr_number: 1,
        title: None,
        body: None,
        created_at: None,
        updated_at: None,
        merged_at: None,
        closed_at: None,
        status: None,
        url: None,
    };
    let bytes = encode_pr(&pr);
    let back = decode_pr(&bytes).unwrap();
    assert_eq!(back, pr);
}

#[test]
fn decode_rejects_garbage() {
    assert!(decode_issue(&Vec::new()).is_none());
    assert!(decode_pr(&Vec::new()).is_none());
    assert!(decode_issue(&vec![0u8; 7]).is_none());
    assert!(decode_issue(&vec![0xffu8; 40]).is_none());
    assert!(decode_pr(&vec![0xffu8; 40]).is_none());
}

#[test]
fn decode_rejects_trailing_bytes() {
    let issue = Issue {
        issue_number: 5,
        title: b"x".to_vec(),
        body: None,
        created_at: 0,
        updated_at: 0,
        closed_at: None,
        status: Status::Open,
        url: b"u".to_vec(),
    };
    let mut bytes = encode_issue(&issue);
    bytes.push(0);
    assert!(decode_issue(&bytes).is_none());
}
