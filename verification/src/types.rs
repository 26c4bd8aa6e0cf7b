use vstd::prelude::*;

verus! {

/// Lifecycle state of a tracked item.
#[derive(Clone, Copy, Debug, PartialEq, Eq, Structural)]
pub enum Status {
    Open,
    Closed,
    Merged,
}

/// The two kinds of trackable item a repository feed can report.
#[derive(Clone, Copy, Debug, PartialEq, Eq, Structural)]
pub enum Category {
    Issue,
    PullRequest,
}

/// An issue record, with timestamps held as whole seconds since the Unix
/// epoch (UTC) and text held as raw bytes.
#[derive(Clone, Debug, PartialEq, Eq)]
pub struct Issue {
    pub issue_number: u32,
    pub title: Vec<u8>,
    pub body: Option<Vec<u8>>,
    pub created_at: i64,
    pub updated_at: i64,
    pub closed_at: Option<i64>,
    pub status: Status,
    pub url: Vec<u8>,
}

/// A pull-request record, with timestamps held as whole seconds since the
/// Unix epoch (UTC) and text held as raw bytes.
#[derive(Clone, Debug, PartialEq, Eq)]
pub struct PullRequest {
    pub pr_number: u64,
    pub title: Option<Vec<u8>>,
    pub body: Option<Vec<u8>>,
    pub created_at: Option<i64>,
    pub updated_at: Option<i64>,
    pub merged_at: Option<i64>,
    pub closed_at: Option<i64>,
    pub status: Option<Status>,
    pub url: Option<Vec<u8>>,
}

/// A repository under watch, as named by the configuration.
#[derive(Clone, Debug, Default, PartialEq, Eq)]
pub struct Repository {
    pub organization: String,
    pub repository: String,
    pub query_release: bool,
}

/// The components of a persisted key: one repository, and at most one of a
/// pull-request number or an issue number.
#[derive(Clone, Debug, Default)]
pub struct DbKey<'a> {
    pub repository: &'a str,
    pub pr_number: Option<u64>,
    pub issue_number: Option<u64>,
}

/// A detected change of one item's lifecycle status between two
/// reconciliation runs.
#[derive(Clone, Debug, PartialEq, Eq)]
pub struct TransitionEvent {
    pub organization: Vec<u8>,
    pub repository: Vec<u8>,
    pub category: Category,
    pub number: u64,
    pub from_status: Status,
    pub to_status: Status,
}

/// Why a reconciliation pass, or one item within it, failed.
#[derive(Clone, Copy, Debug, PartialEq, Eq, Structural)]
pub enum ReconcileError {
    /// The persistent store reported an I/O failure; the atomic step that
    /// failed left no partial bucket move behind.
    Store,
    /// A persisted record could not be decoded.
    Encoding,
    /// An item reported a merge timestamp without a close timestamp.
    Classification,
}

/// The item data-model invariant on a pair of merge and close timestamps:
/// a merge timestamp implies a close timestamp.
pub open spec fn timestamps_consistent(merged_at: Option<i64>, closed_at: Option<i64>) -> bool {
    merged_at is Some ==> closed_at is Some
}

/// Derives an item's lifecycle status from its merge and close timestamps.
///
/// Absent close timestamp with absent merge timestamp means the item is
/// still open; a close timestamp alone means closed; both present mean
/// merged. A merge timestamp without a close timestamp violates the data
/// model and is reported as `None`, never silently coerced.
pub fn classify_status(merged_at: Option<i64>, closed_at: Option<i64>) -> (r: Option<Status>)
    ensures
        merged_at is None && closed_at is None ==> r == Some(Status::Open),
        merged_at is Some && closed_at is Some ==> r == Some(Status::Merged),
        merged_at is None && closed_at is Some ==> r == Some(Status::Closed),
        merged_at is Some && closed_at is None ==> r is None,
        r is Some <==> timestamps_consistent(merged_at, closed_at),
{
    match (merged_at, closed_at) {
        (None, None) => Some(Status::Open),
        (Some(_), Some(_)) => Some(Status::Merged),
        (None, Some(_)) => Some(Status::Closed),
        (Some(_), None) => None,
    }
}

} // verus!
