use repowatch::byteseq::{bytes_contains, u64_to_dec};
use repowatch::keys::{bucket_prefix, item_key};
use repowatch::types::{Category, Status};

#[test]
fn decimal_digits() {
    assert_eq!(u64_to_dec(0), b"0".to_vec());
    assert_eq!(u64_to_dec(7), b"7".to_vec());
    assert_eq!(u64_to_dec(12345), b"12345".to_vec());
    assert_eq!(u64_to_dec(u64::MAX), b"18446744073709551615".to_vec());
}

#[test]
fn contains_bytes_cases() {
    assert!(bytes_contains(&b"hello world".to_vec(), &b"lo wo".to_vec()));
    assert!(bytes_contains(&b"abc".to_vec(), &b"".to_vec()));
    assert!(!bytes_contains(&b"abc".to_vec(), &b"abcd".to_vec()));
    assert!(!bytes_contains(&b"aaab".to_vec(), &b"aab4".to_vec()));
}

#[test]
fn key_layout_matches_bucket_scheme() {
    let org = b"acme".to_vec();
    let repo = b"engine".to_vec();
    assert_eq!(
        bucket_prefix(&org, &repo, Category::Issue, Status::Open),
        b"acme#engine#issues#open".to_vec()
    );
    assert_eq!(
        bucket_prefix(&org, &repo, Category::PullRequest, Status::Merged),
        b"acme#engine#prs#merged".to_vec()
    );
    assert_eq!(
        item_key(&org, &repo, Category::PullRequest, Status::Open, 871),
        b"acme#engine#prs#open#871".to_vec()
    );
    assert_eq!(
        item_key(&org, &repo, Category::Issue, Status::Closed, 5),
        b"acme#engine#issues#closed#5".to_vec()
    );
}
