use vstd::prelude::*;

use crate::byteseq::starts_with;
use crate::codec::{
    decode_issue, decode_pr, encode_issue, encode_pr, spec_encode_issue, spec_encode_pr,
};
use crate::keys::{
    bucket_prefix, item_key, lemma_item_key_injective, lemma_key_in_own_bucket,
    lemma_key_not_in_other_bucket, lemma_key_not_in_other_category, spec_bucket_prefix,
    spec_item_key,
};
use crate::store::{apply_op, apply_ops, BatchOp, Store};
use crate::types::{classify_status, Category, Issue, PullRequest, ReconcileError, Status, TransitionEvent};

verus! {

/// The key of one issue in one status bucket.
pub open spec fn ikey(org: Seq<u8>, repo: Seq<u8>, st: Status, n: u64) -> Seq<u8> {
    spec_item_key(org, repo, Category::Issue, st, n)
}

/// The key of one pull request in one status bucket.
pub open spec fn pkey(org: Seq<u8>, repo: Seq<u8>, st: Status, n: u64) -> Seq<u8> {
    spec_item_key(org, repo, Category::PullRequest, st, n)
}

/// The item numbers a live issue feed reports.
pub open spec fn issue_live_numbers(items: Seq<Issue>) -> Set<u64> {
    Set::new(
        |n: u64| exists|j: int| 0 <= j < items.len() && items[j].issue_number as u64 == n,
    )
}

/// The item numbers a live pull-request feed reports.
pub open spec fn pr_live_numbers(items: Seq<PullRequest>) -> Set<u64> {
    Set::new(|n: u64| exists|j: int| 0 <= j < items.len() && items[j].pr_number == n)
}

/// The item numbers of a sequence of moved issues.
pub open spec fn issue_numbers_of(items: Seq<Issue>) -> Set<u64> {
    Set::new(
        |n: u64| exists|j: int| 0 <= j < items.len() && items[j].issue_number as u64 == n,
    )
}

/// A well-formed issue bucket: every entry under the bucket's scan prefix is
/// the encoding of an issue record stored under its own number's key.
pub open spec fn issue_bucket_wf(
    m: Map<Seq<u8>, Seq<u8>>,
    org: Seq<u8>,
    repo: Seq<u8>,
    st: Status,
) -> bool {
    forall|k: Seq<u8>|
        #[trigger] m.contains_key(k) && starts_with(
            k,
            spec_bucket_prefix(org, repo, Category::Issue, st),
        ) ==> exists|i: Issue|
            k == ikey(org, repo, st, i.issue_number as u64) && m[k] == spec_encode_issue(i)
}

/// A well-formed pull-request bucket.
pub open spec fn pr_bucket_wf(
    m: Map<Seq<u8>, Seq<u8>>,
    org: Seq<u8>,
    repo: Seq<u8>,
    st: Status,
) -> bool {
    forall|k: Seq<u8>|
        #[trigger] m.contains_key(k) && starts_with(
            k,
            spec_bucket_prefix(org, repo, Category::PullRequest, st),
        ) ==> exists|p: PullRequest|
            k == pkey(org, repo, st, p.pr_number) && m[k] == spec_encode_pr(p)
}

/// No issue number is held in both issue buckets at once.
pub open spec fn issue_buckets_disjoint(m: Map<Seq<u8>, Seq<u8>>, org: Seq<u8>, repo: Seq<u8>) -> bool {
    forall|n: u64|
        !(m.contains_key(#[trigger] ikey(org, repo, Status::Open, n)) && m.contains_key(
            ikey(org, repo, Status::Closed, n),
        ))
}

/// No pull-request number is held in more than one of the three buckets.
pub open spec fn pr_buckets_disjoint(m: Map<Seq<u8>, Seq<u8>>, org: Seq<u8>, repo: Seq<u8>) -> bool {
    forall|n: u64|
        {
            let o = m.contains_key(#[trigger] pkey(org, repo, Status::Open, n));
            let g = m.contains_key(pkey(org, repo, Status::Merged, n));
            let c = m.contains_key(pkey(org, repo, Status::Closed, n));
            !(o && g) && !(o && c) && !(g && c)
        }
}

/// Every record in the merged bucket carries both a merge and a close
/// timestamp.
pub open spec fn merged_records_closed(m: Map<Seq<u8>, Seq<u8>>, org: Seq<u8>, repo: Seq<u8>) -> bool {
    forall|k: Seq<u8>|
        #[trigger] m.contains_key(k) && starts_with(
            k,
            spec_bucket_prefix(org, repo, Category::PullRequest, Status::Merged),
        ) ==> exists|p: PullRequest|
            m[k] == spec_encode_pr(p) && p.merged_at is Some && p.closed_at is Some
}

/// Distinctness and bucket-membership facts about the keys of one
/// repository, gathered once for the proofs below.
proof fn lemma_key_facts(org: Seq<u8>, repo: Seq<u8>)
    ensures
        forall|c1: Category, s1: Status, n1: u64, c2: Category, s2: Status, n2: u64|
            #![trigger spec_item_key(org, repo, c1, s1, n1), spec_item_key(org, repo, c2, s2, n2)]
            spec_item_key(org, repo, c1, s1, n1) == spec_item_key(org, repo, c2, s2, n2) ==> (c1
                == c2 && s1 == s2 && n1 == n2),
        forall|c: Category, s: Status, n: u64|
            #![trigger spec_item_key(org, repo, c, s, n)]
            starts_with(spec_item_key(org, repo, c, s, n), spec_bucket_prefix(org, repo, c, s)),
        forall|cb: Category, sb: Status, c: Category, s: Status, n: u64|
            #![trigger starts_with(spec_item_key(org, repo, c, s, n), spec_bucket_prefix(org, repo, cb, sb))]
            (cb != c || sb != s) ==> !starts_with(
                spec_item_key(org, repo, c, s, n),
                spec_bucket_prefix(org, repo, cb, sb),
            ),
{
    assert forall|c1: Category, s1: Status, n1: u64, c2: Category, s2: Status, n2: u64|
        spec_item_key(org, repo, c1, s1, n1) == spec_item_key(org, repo, c2, s2, n2) implies (c1
        == c2 && s1 == s2 && n1 == n2) by {
        lemma_item_key_injective(org, repo, c1, s1, n1, c2, s2, n2);
    }
    assert forall|c: Category, s: Status, n: u64|
        starts_with(
            spec_item_key(org, repo, c, s, n),
            spec_bucket_prefix(org, repo, c, s),
        ) by {
        lemma_key_in_own_bucket(org, repo, c, s, n);
    }
    assert forall|cb: Category, sb: Status, c: Category, s: Status, n: u64| (cb != c || sb
        != s) implies !starts_with(
        spec_item_key(org, repo, c, s, n),
        spec_bucket_prefix(org, repo, cb, sb),
    ) by {
        if cb != c {
            lemma_key_not_in_other_category(org, repo, cb, sb, c, s, n);
        } else {
            lemma_key_not_in_other_bucket(org, repo, c, sb, s, n);
        }
    }
}

/// Whether a sequence of numbers holds a given number.
fn contains_u64(v: &Vec<u64>, x: u64) -> (r: bool)
    ensures
        r == v@.contains(x),
{
    let mut j: usize = 0;
    let n = v.len();
    while j < n
        invariant
            n == v@.len(),
            j <= n,
            forall|t: int| 0 <= t < j ==> v@[t] != x,
        decreases n - j,
    {
        if v[j] == x {
            assert(v@.contains(x));
            return true;
        }
        j += 1;
    }
    assert(!v@.contains(x));
    false
}

/// The numbers of a live issue feed, in feed order.
fn issue_nums(items: &Vec<Issue>) -> (r: Vec<u64>)
    ensures
        r@.len() == items@.len(),
        forall|j: int| 0 <= j < items@.len() ==> r@[j] == items@[j].issue_number as u64,
        forall|n: u64| r@.contains(n) <==> issue_live_numbers(items@).contains(n),
{
    let mut r: Vec<u64> = Vec::new();
    let mut j: usize = 0;
    let n = items.len();
    while j < n
        invariant
            n == items@.len(),
            j <= n,
            r@.len() == j,
            forall|t: int| 0 <= t < j ==> r@[t] == items@[t].issue_number as u64,
        decreases n - j,
    {
        r.push(items[j].issue_number as u64);
        j += 1;
    }
    proof {
        assert forall|x: u64| r@.contains(x) implies issue_live_numbers(items@).contains(x) by {
            let t = choose|t: int| 0 <= t < r@.len() && r@[t] == x;
            assert(items@[t].issue_number as u64 == x);
        }
        assert forall|x: u64| issue_live_numbers(items@).contains(x) implies r@.contains(x) by {
            let t = choose|t: int|
                0 <= t < items@.len() && items@[t].issue_number as u64 == x;
            assert(r@[t] == x);
        }
    }
    r
}

/// The numbers of a live pull-request feed, in feed order.
fn pr_nums(items: &Vec<PullRequest>) -> (r: Vec<u64>)
    ensures
        r@.len() == items@.len(),
        forall|j: int| 0 <= j < items@.len() ==> r@[j] == items@[j].pr_number,
        forall|n: u64| r@.contains(n) <==> pr_live_numbers(items@).contains(n),
{
    let mut r: Vec<u64> = Vec::new();
    let mut j: usize = 0;
    let n = items.len();
    while j < n
        invariant
            n == items@.len(),
            j <= n,
            r@.len() == j,
            forall|t: int| 0 <= t < j ==> r@[t] == items@[t].pr_number,
        decreases n - j,
    {
        r.push(items[j].pr_number);
        j += 1;
    }
    proof {
        assert forall|x: u64| r@.contains(x) implies pr_live_numbers(items@).contains(x) by {
            let t = choose|t: int| 0 <= t < r@.len() && r@[t] == x;
            assert(items@[t].pr_number == x);
        }
        assert forall|x: u64| pr_live_numbers(items@).contains(x) implies r@.contains(x) by {
            let t = choose|t: int| 0 <= t < items@.len() && items@[t].pr_number == x;
            assert(r@[t] == x);
        }
    }
    r
}

/// Whether two byte strings hold the same bytes.
fn bytes_eq(a: &Vec<u8>, b: &Vec<u8>) -> (r: bool)
    ensures
        r == (a@ == b@),
{
    if a.len() != b.len() {
        return false;
    }
    let n = a.len();
    let mut j: usize = 0;
    while j < n
        invariant
            n == a@.len(),
            a@.len() == b@.len(),
            j <= n,
            forall|t: int| 0 <= t < j ==> a@[t] == b@[t],
        decreases n - j,
    {
        if a[j] != b[j] {
            return false;
        }
        j += 1;
    }
    proof {
        assert(a@ =~= b@);
    }
    true
}

/// A byte-for-byte copy.
fn copy_bytes(v: &Vec<u8>) -> (r: Vec<u8>)
    ensures
        r@ == v@,
{
    let mut r: Vec<u8> = Vec::new();
    let n = v.len();
    let mut j: usize = 0;
    while j < n
        invariant
            n == v@.len(),
            j <= n,
            r@ == v@.subrange(0, j as int),
        decreases n - j,
    {
        r.push(v[j]);
        j += 1;
        proof {
            assert(r@ =~= v@.subrange(0, j as int));
        }
    }
    proof {
        assert(r@ =~= v@);
    }
    r
}

/// A copy of a possibly absent byte string.
fn copy_opt_bytes(o: &Option<Vec<u8>>) -> (r: Option<Vec<u8>>)
    ensures
        r is Some <==> *o is Some,
        r matches Some(x) ==> *o matches Some(y) && x@ == y@,
{
    match o {
        Option::None => None,
        Option::Some(v) => Some(copy_bytes(v)),
    }
}


/// How one reconciliation pass relates the store's contents `m` to its
/// starting contents `m0`, after the live set `live` has been upserted and
/// the issues of `moved` have been moved from the open to the closed bucket:
/// the open bucket holds the live numbers plus the not-yet-moved old ones,
/// the closed bucket has gained exactly the moved issues and lost the live
/// ones, and every other key is untouched.
pub open spec fn issue_move_state(
    m0: Map<Seq<u8>, Seq<u8>>,
    m: Map<Seq<u8>, Seq<u8>>,
    org: Seq<u8>,
    repo: Seq<u8>,
    live: Seq<Issue>,
    moved: Seq<Issue>,
) -> bool {
    let lv = issue_live_numbers(live);
    let done = issue_numbers_of(moved);
    &&& forall|n: u64|
        m.contains_key(#[trigger] ikey(org, repo, Status::Open, n)) <==> (lv.contains(n) || (
        m0.contains_key(ikey(org, repo, Status::Open, n)) && !done.contains(n)))
    &&& forall|n: u64|
        lv.contains(n) ==> exists|j: int|
            0 <= j < live.len() && live[j].issue_number as u64 == n && m[#[trigger] ikey(
                org,
                repo,
                Status::Open,
                n,
            )] == spec_encode_issue(live[j])
    &&& forall|n: u64|
        m.contains_key(#[trigger] ikey(org, repo, Status::Closed, n)) <==> ((m0.contains_key(
            ikey(org, repo, Status::Closed, n),
        ) && !lv.contains(n)) || done.contains(n))
    &&& forall|n: u64|
        m0.contains_key(#[trigger] ikey(org, repo, Status::Closed, n)) && !lv.contains(n)
            && !done.contains(n) ==> m[ikey(org, repo, Status::Closed, n)] == m0[ikey(
            org,
            repo,
            Status::Closed,
            n,
        )]
    &&& forall|n: u64|
        m0.contains_key(#[trigger] ikey(org, repo, Status::Open, n)) && !lv.contains(n)
            && !done.contains(n) ==> m[ikey(org, repo, Status::Open, n)] == m0[ikey(
            org,
            repo,
            Status::Open,
            n,
        )]
    &&& forall|j: int|
        0 <= j < moved.len() ==> {
            let n = (#[trigger] moved[j]).issue_number as u64;
            &&& m0.contains_key(ikey(org, repo, Status::Open, n))
            &&& !lv.contains(n)
            &&& moved[j].status == Status::Closed
            &&& m.contains_key(ikey(org, repo, Status::Closed, n))
            &&& m[ikey(org, repo, Status::Closed, n)] == spec_encode_issue(moved[j])
        }
    &&& forall|j1: int, j2: int|
        0 <= j1 < j2 < moved.len() ==> (#[trigger] moved[j1]).issue_number != (
        #[trigger] moved[j2]).issue_number
    &&& forall|k: Seq<u8>|
        (forall|n: u64|
            k != ikey(org, repo, Status::Open, n) && k != ikey(org, repo, Status::Closed, n))
            ==> ((#[trigger] m.contains_key(k) <==> m0.contains_key(k)) && (m0.contains_key(k)
            ==> m.contains_key(k) && m[k] == m0[k]))
}

/// The effect of the live-set upsert batch: every live issue is written into
/// the open bucket and withdrawn from the closed bucket, and nothing else
/// changes.
proof fn lemma_issue_upsert(
    m: Map<Seq<u8>, Seq<u8>>,
    org: Seq<u8>,
    repo: Seq<u8>,
    live: Seq<Issue>,
    ops: Seq<BatchOp>,
)
    requires
        ops.len() == 2 * live.len(),
        forall|t: int|
            0 <= t < live.len() ==> (#[trigger] ops[2 * t] matches BatchOp::Put(k, v) && k@
                == ikey(org, repo, Status::Open, live[t].issue_number as u64) && v@
                == spec_encode_issue(live[t])),
        forall|t: int|
            0 <= t < live.len() ==> (#[trigger] ops[2 * t + 1] matches BatchOp::Del(k) && k@
                == ikey(org, repo, Status::Closed, live[t].issue_number as u64)),
    ensures
        issue_move_state(m, apply_ops(m, ops), org, repo, live, Seq::empty()),
    decreases live.len(),
{
    lemma_key_facts(org, repo);
    let m1 = apply_ops(m, ops);
    let lv = issue_live_numbers(live);
    assert(issue_numbers_of(Seq::empty()) =~= Set::empty());
    if live.len() == 0 {
        assert(m1 == m);
        assert forall|n: u64| !lv.contains(n) by {}
    } else {
        let n0 = live[0].issue_number as u64;
        let rest = live.subrange(1, live.len() as int);
        let ops_rest = ops.subrange(2, ops.len() as int);
        let ma = apply_op(m, ops[0]);
        let mb = apply_op(ma, ops[1]);
        let ghost z: int = 0;
        assert(ops[2 * z] matches BatchOp::Put(k, v) && k@ == ikey(
            org,
            repo,
            Status::Open,
            live[z].issue_number as u64,
        ) && v@ == spec_encode_issue(live[z]));
        assert(ops[2 * z + 1] matches BatchOp::Del(k) && k@ == ikey(
            org,
            repo,
            Status::Closed,
            live[z].issue_number as u64,
        ));
        assert(ops[0] == ops[2 * z] && ops[1] == ops[2 * z + 1]);
        assert(mb == m.insert(ikey(org, repo, Status::Open, n0), spec_encode_issue(live[0])).remove(
            ikey(org, repo, Status::Closed, n0),
        ));
        let tail1 = ops.subrange(1, ops.len() as int);
        assert(tail1.subrange(1, tail1.len() as int) =~= ops_rest);
        assert(apply_ops(m, ops) == apply_ops(ma, tail1));
        assert(tail1[0] == ops[1]);
        assert(apply_ops(ma, tail1) == apply_ops(apply_op(ma, tail1[0]), tail1.subrange(
            1,
            tail1.len() as int,
        )));
        assert(m1 == apply_ops(mb, ops_rest));
        assert(ops_rest.len() == 2 * rest.len());
        assert forall|t: int|
            0 <= t < rest.len() implies (#[trigger] ops_rest[2 * t] matches BatchOp::Put(k, v) && k@
            == ikey(org, repo, Status::Open, rest[t].issue_number as u64) && v@
            == spec_encode_issue(rest[t])) by {
            assert(ops_rest[2 * t] == ops[2 * (t + 1)]);
            assert(rest[t] == live[t + 1]);
        }
        assert forall|t: int|
            0 <= t < rest.len() implies (#[trigger] ops_rest[2 * t + 1] matches BatchOp::Del(k)
            && k@ == ikey(org, repo, Status::Closed, rest[t].issue_number as u64)) by {
            assert(ops_rest[2 * t + 1] == ops[2 * (t + 1) + 1]);
            assert(rest[t] == live[t + 1]);
        }
        lemma_issue_upsert(mb, org, repo, rest, ops_rest);
        let lvr = issue_live_numbers(rest);
        assert forall|n: u64| lv.contains(n) <==> (lvr.contains(n) || n == n0) by {
            if lv.contains(n) {
                let j = choose|j: int|
                    0 <= j < live.len() && live[j].issue_number as u64 == n;
                if j > 0 {
                    assert(rest[j - 1] == live[j]);
                    assert(lvr.contains(n));
                }
            }
            if lvr.contains(n) {
                let j = choose|j: int|
                    0 <= j < rest.len() && rest[j].issue_number as u64 == n;
                assert(live[j + 1] == rest[j]);
                assert(lv.contains(n));
            }
            if n == n0 {
                assert(live[0].issue_number as u64 == n);
                assert(lv.contains(n));
            }
        }
        assert forall|n: u64|
            m1.contains_key(#[trigger] ikey(org, repo, Status::Open, n)) <==> (lv.contains(n) || (
            m.contains_key(ikey(org, repo, Status::Open, n)) && !issue_numbers_of(
                Seq::<Issue>::empty(),
            ).contains(n))) by {
            if n == n0 && !lvr.contains(n) {
                assert(mb.contains_key(ikey(org, repo, Status::Open, n)));
            }
        }
        assert forall|n: u64| lv.contains(n) implies exists|j: int|
            0 <= j < live.len() && live[j].issue_number as u64 == n && m1[#[trigger] ikey(
                org,
                repo,
                Status::Open,
                n,
            )] == spec_encode_issue(live[j]) by {
            if lvr.contains(n) {
                let j = choose|j: int|
                    0 <= j < rest.len() && rest[j].issue_number as u64 == n && m1[ikey(
                        org,
                        repo,
                        Status::Open,
                        n,
                    )] == spec_encode_issue(rest[j]);
                assert(live[j + 1] == rest[j]);
                assert(live[j + 1].issue_number as u64 == n && m1[ikey(org, repo, Status::Open, n)]
                    == spec_encode_issue(live[j + 1]));
            } else {
                assert(n == n0);
                assert(mb[ikey(org, repo, Status::Open, n)] == spec_encode_issue(live[0]));
                assert(m1[ikey(org, repo, Status::Open, n)] == spec_encode_issue(live[0]));
            }
        }
        assert forall|n: u64|
            m1.contains_key(#[trigger] ikey(org, repo, Status::Closed, n)) <==> ((m.contains_key(
                ikey(org, repo, Status::Closed, n),
            ) && !lv.contains(n)) || issue_numbers_of(Seq::<Issue>::empty()).contains(n)) by {}
        assert forall|n: u64|
            m.contains_key(#[trigger] ikey(org, repo, Status::Open, n)) && !lv.contains(n)
                implies m1[ikey(org, repo, Status::Open, n)] == m[ikey(
                org,
                repo,
                Status::Open,
                n,
            )] by {
            assert(n != n0);
            assert(mb[ikey(org, repo, Status::Open, n)] == m[ikey(org, repo, Status::Open, n)]);
        }
        assert forall|n: u64|
            m.contains_key(#[trigger] ikey(org, repo, Status::Closed, n)) && !lv.contains(n)
                implies m1[ikey(org, repo, Status::Closed, n)] == m[ikey(
                org,
                repo,
                Status::Closed,
                n,
            )] by {
            assert(n != n0);
            assert(mb[ikey(org, repo, Status::Closed, n)] == m[ikey(
                org,
                repo,
                Status::Closed,
                n,
            )]);
        }
        assert forall|k: Seq<u8>|
            (forall|n: u64|
                k != ikey(org, repo, Status::Open, n) && k != ikey(org, repo, Status::Closed, n))
                implies ((#[trigger] m1.contains_key(k) <==> m.contains_key(k)) && (
            m.contains_key(k) ==> m1.contains_key(k) && m1[k] == m[k])) by {
            assert(k != ikey(org, repo, Status::Open, n0));
            assert(k != ikey(org, repo, Status::Closed, n0));
            assert(mb.contains_key(k) <==> m.contains_key(k));
        }
    }
}


/// The contract of a finished issue reconciliation: the pass reached the
/// state of `issue_move_state`, and every previously open issue absent from
/// the live set was moved.
pub open spec fn issue_reconcile_post(
    m0: Map<Seq<u8>, Seq<u8>>,
    m: Map<Seq<u8>, Seq<u8>>,
    org: Seq<u8>,
    repo: Seq<u8>,
    live: Seq<Issue>,
    moved: Seq<Issue>,
) -> bool {
    &&& issue_move_state(m0, m, org, repo, live, moved)
    &&& forall|n: u64|
        m0.contains_key(#[trigger] ikey(org, repo, Status::Open, n)) && !issue_live_numbers(
            live,
        ).contains(n) ==> issue_numbers_of(moved).contains(n)
}

/// A reconciliation state never holds an issue in both buckets, provided the
/// store it started from did not.
proof fn lemma_issue_state_disjoint(
    m0: Map<Seq<u8>, Seq<u8>>,
    m: Map<Seq<u8>, Seq<u8>>,
    org: Seq<u8>,
    repo: Seq<u8>,
    live: Seq<Issue>,
    moved: Seq<Issue>,
)
    requires
        issue_move_state(m0, m, org, repo, live, moved),
        issue_buckets_disjoint(m0, org, repo),
    ensures
        issue_buckets_disjoint(m, org, repo),
{
    let lv = issue_live_numbers(live);
    let done = issue_numbers_of(moved);
    assert forall|n: u64|
        !(m.contains_key(#[trigger] ikey(org, repo, Status::Open, n)) && m.contains_key(
            ikey(org, repo, Status::Closed, n),
        )) by {
        if m.contains_key(ikey(org, repo, Status::Open, n)) && m.contains_key(
            ikey(org, repo, Status::Closed, n),
        ) {
            if done.contains(n) {
                let j = choose|j: int|
                    0 <= j < moved.len() && moved[j].issue_number as u64 == n;
                assert(!lv.contains(n));
            }
        }
    }
}

/// After a finished pass both issue buckets are well formed again.
proof fn lemma_issue_post_wf(
    m0: Map<Seq<u8>, Seq<u8>>,
    m: Map<Seq<u8>, Seq<u8>>,
    org: Seq<u8>,
    repo: Seq<u8>,
    live: Seq<Issue>,
    moved: Seq<Issue>,
)
    requires
        issue_reconcile_post(m0, m, org, repo, live, moved),
        issue_bucket_wf(m0, org, repo, Status::Open),
    ensures
        issue_bucket_wf(m, org, repo, Status::Open),
        issue_bucket_wf(m0, org, repo, Status::Closed) ==> issue_bucket_wf(
            m,
            org,
            repo,
            Status::Closed,
        ),
{
    lemma_key_facts(org, repo);
    let lv = issue_live_numbers(live);
    let done = issue_numbers_of(moved);
    assert forall|k: Seq<u8>|
        #[trigger] m.contains_key(k) && starts_with(
            k,
            spec_bucket_prefix(org, repo, Category::Issue, Status::Open),
        ) implies exists|i: Issue|
        k == ikey(org, repo, Status::Open, i.issue_number as u64) && m[k] == spec_encode_issue(
            i,
        ) by {
        if exists|n: u64| k == ikey(org, repo, Status::Open, n) {
            let n = choose|n: u64| k == ikey(org, repo, Status::Open, n);
            assert(lv.contains(n) || (m0.contains_key(k) && !done.contains(n)));
            if lv.contains(n) {
                let j = choose|j: int|
                    0 <= j < live.len() && live[j].issue_number as u64 == n && m[ikey(
                        org,
                        repo,
                        Status::Open,
                        n,
                    )] == spec_encode_issue(live[j]);
                assert(k == ikey(org, repo, Status::Open, live[j].issue_number as u64) && m[k]
                    == spec_encode_issue(live[j]));
            } else {
                assert(done.contains(n));
                assert(false);
            }
        } else if exists|n: u64| k == ikey(org, repo, Status::Closed, n) {
            let n = choose|n: u64| k == ikey(org, repo, Status::Closed, n);
            assert(!starts_with(k, spec_bucket_prefix(org, repo, Category::Issue, Status::Open)));
            assert(false);
        } else {
            assert(forall|n: u64|
                k != ikey(org, repo, Status::Open, n) && k != ikey(org, repo, Status::Closed, n));
            assert(m0.contains_key(k));
            let i = choose|i: Issue|
                k == ikey(org, repo, Status::Open, i.issue_number as u64) && m0[k]
                    == spec_encode_issue(i);
            assert(false);
        }
    }
    if issue_bucket_wf(m0, org, repo, Status::Closed) {
        assert forall|k: Seq<u8>|
            #[trigger] m.contains_key(k) && starts_with(
                k,
                spec_bucket_prefix(org, repo, Category::Issue, Status::Closed),
            ) implies exists|i: Issue|
            k == ikey(org, repo, Status::Closed, i.issue_number as u64) && m[k]
                == spec_encode_issue(i) by {
            if exists|n: u64| k == ikey(org, repo, Status::Closed, n) {
                let n = choose|n: u64| k == ikey(org, repo, Status::Closed, n);
                if done.contains(n) {
                    let j = choose|j: int|
                        0 <= j < moved.len() && moved[j].issue_number as u64 == n;
                    assert(k == ikey(org, repo, Status::Closed, moved[j].issue_number as u64)
                        && m[k] == spec_encode_issue(moved[j]));
                } else {
                    assert(m0.contains_key(k) && !lv.contains(n));
                    assert(m[k] == m0[k]);
                    let i = choose|i: Issue|
                        k == ikey(org, repo, Status::Closed, i.issue_number as u64) && m0[k]
                            == spec_encode_issue(i);
                    assert(k == ikey(org, repo, Status::Closed, i.issue_number as u64) && m[k]
                        == spec_encode_issue(i));
                }
            } else if exists|n: u64| k == ikey(org, repo, Status::Open, n) {
                let n = choose|n: u64| k == ikey(org, repo, Status::Open, n);
                assert(!starts_with(
                    k,
                    spec_bucket_prefix(org, repo, Category::Issue, Status::Closed),
                ));
                assert(false);
            } else {
                assert(forall|n: u64|
                    k != ikey(org, repo, Status::Open, n) && k != ikey(
                        org,
                        repo,
                        Status::Closed,
                        n,
                    ));
                assert(m0.contains_key(k));
                let i = choose|i: Issue|
                    k == ikey(org, repo, Status::Closed, i.issue_number as u64) && m0[k]
                        == spec_encode_issue(i);
                assert(false);
            }
        }
    }
}

/// Reconciles one repository's issues against the live set of currently
/// open issues, as fetched from the remote feed.
///
/// Every live issue is upserted into the open bucket in one atomic batch
/// (and withdrawn from the closed bucket, should the remote have reopened
/// it). Every issue found persisted as open but absent from the live set has
/// been closed remotely: it is moved to the closed bucket, each move one
/// atomic delete-and-insert, and returned. Malformed persisted records
/// surface as an encoding failure before anything is written.
#[verifier::loop_isolation(false)]
pub fn update_issue_status(
    store: &mut Store,
    org: &Vec<u8>,
    repo: &Vec<u8>,
    live_open: &Vec<Issue>,
) -> (r: Result<Vec<Issue>, ReconcileError>)
    ensures
        r matches Ok(moved) ==> issue_reconcile_post(
            old(store)@,
            final(store)@,
            org@,
            repo@,
            live_open@,
            moved@,
        ) && issue_bucket_wf(old(store)@, org@, repo@, Status::Open),
        r matches Ok(moved) ==> issue_bucket_wf(final(store)@, org@, repo@, Status::Open) && (
        issue_bucket_wf(old(store)@, org@, repo@, Status::Closed) ==> issue_bucket_wf(
            final(store)@,
            org@,
            repo@,
            Status::Closed,
        )),
        r == Err::<Vec<Issue>, ReconcileError>(ReconcileError::Encoding) ==> final(store)@ == old(
            store,
        )@ && !issue_bucket_wf(old(store)@, org@, repo@, Status::Open),
        r is Err ==> r == Err::<Vec<Issue>, ReconcileError>(ReconcileError::Store) || r
            == Err::<Vec<Issue>, ReconcileError>(ReconcileError::Encoding),
        issue_buckets_disjoint(old(store)@, org@, repo@) ==> issue_buckets_disjoint(
            final(store)@,
            org@,
            repo@,
        ),
{
    proof {
        lemma_key_facts(org@, repo@);
    }
    let ghost m0 = store@;
    let pre_open = bucket_prefix(org, repo, Category::Issue, Status::Open);
    let entries = match store.scan_prefix(&pre_open) {
        Result::Ok(e) => e,
        Result::Err(_) => {
            return Err(ReconcileError::Store);
        },
    };
    let n_entries = entries.len();
    let mut prev: Vec<Issue> = Vec::new();
    let mut idx: usize = 0;
    while idx < n_entries
        invariant
            idx <= n_entries,
            prev@.len() == idx,
            forall|j: int|
                0 <= j < idx ==> (#[trigger] entries@[j]).0@ == ikey(
                    org@,
                    repo@,
                    Status::Open,
                    prev@[j].issue_number as u64,
                ) && entries@[j].1@ == spec_encode_issue(prev@[j]),
        decreases n_entries - idx,
    {
        let o = match decode_issue(&entries[idx].1) {
            Option::Some(o) => o,
            Option::None => {
                proof {
                    let bad = entries@[idx as int].0@;
                    assert(m0.contains_key(bad));
                    assert forall|i: Issue|
                        !(bad == ikey(org@, repo@, Status::Open, i.issue_number as u64) && m0[bad]
                            == spec_encode_issue(i)) by {
                        if bad == ikey(org@, repo@, Status::Open, i.issue_number as u64) && m0[bad]
                            == spec_encode_issue(i) {
                            assert(entries@[idx as int].1@ == spec_encode_issue(i));
                        }
                    }
                    assert(!issue_bucket_wf(m0, org@, repo@, Status::Open));
                }
                return Err(ReconcileError::Encoding);
            },
        };
        let expected = item_key(org, repo, Category::Issue, Status::Open, o.issue_number as u64);
        if !bytes_eq(&entries[idx].0, &expected) {
            proof {
                let bad = entries@[idx as int].0@;
                assert(m0.contains_key(bad));
                assert forall|i: Issue|
                    !(bad == ikey(org@, repo@, Status::Open, i.issue_number as u64) && m0[bad]
                        == spec_encode_issue(i)) by {
                    if bad == ikey(org@, repo@, Status::Open, i.issue_number as u64) && m0[bad]
                        == spec_encode_issue(i) {
                        crate::codec::lemma_issue_number_of_enc(o, i);
                    }
                }
                assert(!issue_bucket_wf(m0, org@, repo@, Status::Open));
            }
            return Err(ReconcileError::Encoding);
        }
        prev.push(o);
        idx += 1;
    }
    proof {
        assert forall|n: u64|
            m0.contains_key(#[trigger] ikey(org@, repo@, Status::Open, n)) implies exists|t: int|
            0 <= t < prev@.len() && prev@[t].issue_number as u64 == n by {
            let k = ikey(org@, repo@, Status::Open, n);
            let j = choose|j: int| 0 <= j < entries@.len() && entries@[j].0@ == k;
            assert(prev@[j].issue_number as u64 == n);
        }
        assert forall|t1: int, t2: int| 0 <= t1 < t2 < prev@.len() implies prev@[t1].issue_number
            != prev@[t2].issue_number by {
            assert(entries@[t1].0@ != entries@[t2].0@);
        }
        assert forall|t: int| 0 <= t < prev@.len() implies m0.contains_key(
            #[trigger] ikey(org@, repo@, Status::Open, prev@[t].issue_number as u64),
        ) && m0[ikey(org@, repo@, Status::Open, prev@[t].issue_number as u64)]
            == spec_encode_issue(prev@[t]) by {
            assert(m0.contains_key(entries@[t].0@));
        }
    }
    let live_nums = issue_nums(live_open);
    let n_live = live_open.len();
    let mut ops: Vec<BatchOp> = Vec::new();
    let mut j: usize = 0;
    while j < n_live
        invariant
            j <= n_live,
            ops@.len() == 2 * j,
            forall|t: int|
                0 <= t < j ==> (#[trigger] ops@[2 * t] matches BatchOp::Put(k, v) && k@ == ikey(
                    org@,
                    repo@,
                    Status::Open,
                    live_open@[t].issue_number as u64,
                ) && v@ == spec_encode_issue(live_open@[t])),
            forall|t: int|
                0 <= t < j ==> (#[trigger] ops@[2 * t + 1] matches BatchOp::Del(k) && k@ == ikey(
                    org@,
                    repo@,
                    Status::Closed,
                    live_open@[t].issue_number as u64,
                )),
        decreases n_live - j,
    {
        let n = live_open[j].issue_number as u64;
        let k_open = item_key(org, repo, Category::Issue, Status::Open, n);
        let v = encode_issue(&live_open[j]);
        ops.push(BatchOp::Put(k_open, v));
        let k_closed = item_key(org, repo, Category::Issue, Status::Closed, n);
        ops.push(BatchOp::Del(k_closed));
        j += 1;
    }
    match store.apply_batch(&ops) {
        Result::Ok(_) => (),
        Result::Err(_) => {
            return Err(ReconcileError::Store);
        },
    }
    proof {
        lemma_issue_upsert(m0, org@, repo@, live_open@, ops@);
        assert(issue_move_state(m0, store@, org@, repo@, live_open@, Seq::empty()));
        if issue_buckets_disjoint(m0, org@, repo@) {
            lemma_issue_state_disjoint(m0, store@, org@, repo@, live_open@, Seq::empty());
        }
    }
    let n_prev = prev.len();
    let mut moved: Vec<Issue> = Vec::new();
    let mut t: usize = 0;
    while t < n_prev
        invariant
            t <= n_prev,
            issue_move_state(m0, store@, org@, repo@, live_open@, moved@),
            forall|s: int|
                0 <= s < t && !issue_live_numbers(live_open@).contains(
                    (#[trigger] prev@[s]).issue_number as u64,
                ) ==> issue_numbers_of(moved@).contains(prev@[s].issue_number as u64),
            forall|n: u64|
                issue_numbers_of(moved@).contains(n) ==> exists|s: int|
                    0 <= s < t && prev@[s].issue_number as u64 == n,
        decreases n_prev - t,
    {
        let n = prev[t].issue_number as u64;
        if !contains_u64(&live_nums, n) {
            let ghost m_pre = store@;
            let o = &prev[t];
            let rec = Issue {
                issue_number: o.issue_number,
                title: copy_bytes(&o.title),
                body: copy_opt_bytes(&o.body),
                created_at: o.created_at,
                updated_at: o.updated_at,
                closed_at: o.closed_at,
                status: Status::Closed,
                url: copy_bytes(&o.url),
            };
            proof {
                assert(spec_encode_issue(rec) == spec_encode_issue(
                    Issue { status: Status::Closed, ..prev@[t as int] },
                ));
            }
            let k_open = item_key(org, repo, Category::Issue, Status::Open, n);
            let k_closed = item_key(org, repo, Category::Issue, Status::Closed, n);
            let v = encode_issue(&rec);
            let mut ops2: Vec<BatchOp> = Vec::new();
            ops2.push(BatchOp::Del(k_open));
            ops2.push(BatchOp::Put(k_closed, v));
            match store.apply_batch(&ops2) {
                Result::Ok(_) => (),
                Result::Err(_) => {
                    proof {
                        if issue_buckets_disjoint(m0, org@, repo@) {
                            lemma_issue_state_disjoint(
                                m0,
                                store@,
                                org@,
                                repo@,
                                live_open@,
                                moved@,
                            );
                        }
                    }
                    return Err(ReconcileError::Store);
                },
            }
            proof {
                let ko = ikey(org@, repo@, Status::Open, n);
                let kc = ikey(org@, repo@, Status::Closed, n);
                assert(ops2@.len() == 2);
                assert(ops2@[0] matches BatchOp::Del(kk) && kk@ == ko);
                assert(ops2@[1] matches BatchOp::Put(kk, vv) && kk@ == kc && vv@
                    == spec_encode_issue(rec));
                assert(ops2@.subrange(1, 2)[0] == ops2@[1]);
                assert(ops2@.subrange(1, 2).subrange(1, 1) =~= Seq::<BatchOp>::empty());
                assert(apply_ops(m_pre, ops2@) == apply_ops(
                    apply_op(m_pre, ops2@[0]),
                    ops2@.subrange(1, 2),
                ));
                assert(apply_ops(apply_op(m_pre, ops2@[0]), ops2@.subrange(1, 2)) == apply_ops(
                    apply_op(apply_op(m_pre, ops2@[0]), ops2@[1]),
                    ops2@.subrange(1, 2).subrange(1, 1),
                ));
                assert(apply_op(m_pre, ops2@[0]) == m_pre.remove(ko));
                assert(apply_op(m_pre.remove(ko), ops2@[1]) == m_pre.remove(ko).insert(
                    kc,
                    spec_encode_issue(rec),
                ));
                assert(store@ == m_pre.remove(ko).insert(kc, spec_encode_issue(rec)));
                assert(!issue_live_numbers(live_open@).contains(n));
                assert(!issue_numbers_of(moved@).contains(n)) by {
                    if issue_numbers_of(moved@).contains(n) {
                        let s = choose|s: int|
                            0 <= s < t && prev@[s].issue_number as u64 == n;
                        assert(prev@[s].issue_number != prev@[t as int].issue_number);
                    }
                }
                let moved2 = moved@.push(rec);
                let done2 = issue_numbers_of(moved2);
                assert forall|x: u64| done2.contains(x) <==> (issue_numbers_of(moved@).contains(x)
                    || x == n) by {
                    if done2.contains(x) {
                        let jj = choose|jj: int|
                            0 <= jj < moved2.len() && moved2[jj].issue_number as u64 == x;
                        if jj < moved@.len() {
                            assert(moved@[jj] == moved2[jj]);
                            assert(issue_numbers_of(moved@).contains(x));
                        }
                    }
                    if issue_numbers_of(moved@).contains(x) {
                        let jj = choose|jj: int|
                            0 <= jj < moved@.len() && moved@[jj].issue_number as u64 == x;
                        assert(moved2[jj] == moved@[jj]);
                    }
                    if x == n {
                        assert(moved2[moved@.len() as int].issue_number as u64 == n);
                    }
                }
                let lv = issue_live_numbers(live_open@);
                assert forall|x: u64|
                    store@.contains_key(#[trigger] ikey(org@, repo@, Status::Open, x)) <==> (
                lv.contains(x) || (m0.contains_key(ikey(org@, repo@, Status::Open, x))
                    && !done2.contains(x))) by {
                    if x == n {
                        assert(!store@.contains_key(ko));
                        assert(done2.contains(n));
                    } else {
                        assert(ikey(org@, repo@, Status::Open, x) != ko);
                        assert(ikey(org@, repo@, Status::Open, x) != kc);
                    }
                }
                assert forall|x: u64| lv.contains(x) implies exists|jx: int|
                    0 <= jx < live_open@.len() && live_open@[jx].issue_number as u64 == x
                        && store@[#[trigger] ikey(org@, repo@, Status::Open, x)]
                        == spec_encode_issue(live_open@[jx]) by {
                    assert(x != n);
                    assert(ikey(org@, repo@, Status::Open, x) != ko);
                    assert(ikey(org@, repo@, Status::Open, x) != kc);
                    let jx = choose|jx: int|
                        0 <= jx < live_open@.len() && live_open@[jx].issue_number as u64 == x
                            && m_pre[ikey(org@, repo@, Status::Open, x)] == spec_encode_issue(
                            live_open@[jx],
                        );
                    assert(store@[ikey(org@, repo@, Status::Open, x)] == spec_encode_issue(
                        live_open@[jx],
                    ));
                }
                assert forall|x: u64|
                    store@.contains_key(#[trigger] ikey(org@, repo@, Status::Closed, x)) <==> ((
                m0.contains_key(ikey(org@, repo@, Status::Closed, x)) && !lv.contains(x))
                    || done2.contains(x)) by {
                    if x == n {
                        assert(store@.contains_key(kc));
                    } else {
                        assert(ikey(org@, repo@, Status::Closed, x) != ko);
                        assert(ikey(org@, repo@, Status::Closed, x) != kc);
                    }
                }
                assert forall|x: u64|
                    m0.contains_key(#[trigger] ikey(org@, repo@, Status::Closed, x))
                        && !lv.contains(x) && !done2.contains(x) implies store@[ikey(
                    org@,
                    repo@,
                    Status::Closed,
                    x,
                )] == m0[ikey(org@, repo@, Status::Closed, x)] by {
                    assert(x != n);
                    assert(ikey(org@, repo@, Status::Closed, x) != ko);
                    assert(ikey(org@, repo@, Status::Closed, x) != kc);
                }
                assert forall|x: u64|
                    m0.contains_key(#[trigger] ikey(org@, repo@, Status::Open, x))
                        && !lv.contains(x) && !done2.contains(x) implies store@[ikey(
                    org@,
                    repo@,
                    Status::Open,
                    x,
                )] == m0[ikey(org@, repo@, Status::Open, x)] by {
                    assert(x != n);
                    assert(ikey(org@, repo@, Status::Open, x) != ko);
                    assert(ikey(org@, repo@, Status::Open, x) != kc);
                }
                assert forall|k: Seq<u8>|
                    (forall|x: u64|
                        k != ikey(org@, repo@, Status::Open, x) && k != ikey(
                            org@,
                            repo@,
                            Status::Closed,
                            x,
                        )) implies ((#[trigger] store@.contains_key(k) <==> m0.contains_key(k))
                    && (m0.contains_key(k) ==> store@.contains_key(k) && store@[k] == m0[k])) by {
                    assert(k != ko && k != kc);
                    assert(store@.contains_key(k) <==> m_pre.contains_key(k));
                }
                assert forall|j1: int, j2: int| 0 <= j1 < j2 < moved2.len() implies (
                #[trigger] moved2[j1]).issue_number != (#[trigger] moved2[j2]).issue_number by {
                    if j2 < moved@.len() {
                        assert(moved2[j1] == moved@[j1] && moved2[j2] == moved@[j2]);
                    } else {
                        assert(moved2[j2] == rec);
                        assert(moved2[j1] == moved@[j1]);
                        assert(issue_numbers_of(moved@).contains(
                            moved@[j1].issue_number as u64,
                        ));
                    }
                }
                assert(issue_move_state(m0, store@, org@, repo@, live_open@, moved2)) by {
                    assert forall|jj: int| 0 <= jj < moved2.len() implies {
                        let nn = (#[trigger] moved2[jj]).issue_number as u64;
                        &&& m0.contains_key(ikey(org@, repo@, Status::Open, nn))
                        &&& !issue_live_numbers(live_open@).contains(nn)
                        &&& moved2[jj].status == Status::Closed
                        &&& store@.contains_key(ikey(org@, repo@, Status::Closed, nn))
                        &&& store@[ikey(org@, repo@, Status::Closed, nn)] == spec_encode_issue(
                            moved2[jj],
                        )
                    } by {
                        if jj < moved@.len() {
                            assert(moved2[jj] == moved@[jj]);
                            let nn = moved2[jj].issue_number as u64;
                            assert(nn != n);
                        } else {
                            assert(moved2[jj] == rec);
                        }
                    }
                }
            }
            moved.push(rec);
        }
        t += 1;
    }
    proof {
        assert forall|n: u64|
            m0.contains_key(#[trigger] ikey(org@, repo@, Status::Open, n))
                && !issue_live_numbers(live_open@).contains(n) implies issue_numbers_of(
            moved@,
        ).contains(n) by {
            let s = choose|s: int| 0 <= s < prev@.len() && prev@[s].issue_number as u64 == n;
        }
        if issue_buckets_disjoint(m0, org@, repo@) {
            lemma_issue_state_disjoint(m0, store@, org@, repo@, live_open@, moved@);
        }
        assert(issue_bucket_wf(m0, org@, repo@, Status::Open)) by {
            assert forall|k: Seq<u8>|
                #[trigger] m0.contains_key(k) && starts_with(
                    k,
                    spec_bucket_prefix(org@, repo@, Category::Issue, Status::Open),
                ) implies exists|i: Issue|
                k == ikey(org@, repo@, Status::Open, i.issue_number as u64) && m0[k]
                    == spec_encode_issue(i) by {
                let j2 = choose|j2: int| 0 <= j2 < entries@.len() && entries@[j2].0@ == k;
                assert(k == ikey(org@, repo@, Status::Open, prev@[j2].issue_number as u64) && m0[k]
                    == spec_encode_issue(prev@[j2]));
            }
        }
        lemma_issue_post_wf(m0, store@, org@, repo@, live_open@, moved@);
    }
    Ok(moved)
}


/// How the live-set upsert relates the store's contents `m` to its starting
/// contents `m0` for pull requests: every live item is written into the open
/// bucket and withdrawn from both terminal buckets (a reopened item returns
/// to open without an event), and every other key is untouched.
pub open spec fn pr_upsert_state(
    m0: Map<Seq<u8>, Seq<u8>>,
    m: Map<Seq<u8>, Seq<u8>>,
    org: Seq<u8>,
    repo: Seq<u8>,
    live: Seq<PullRequest>,
) -> bool {
    let lv = pr_live_numbers(live);
    &&& forall|n: u64|
        m.contains_key(#[trigger] pkey(org, repo, Status::Open, n)) <==> (lv.contains(n)
            || m0.contains_key(pkey(org, repo, Status::Open, n)))
    &&& forall|n: u64|
        lv.contains(n) ==> exists|j: int|
            0 <= j < live.len() && live[j].pr_number == n && m[#[trigger] pkey(
                org,
                repo,
                Status::Open,
                n,
            )] == spec_encode_pr(live[j])
    &&& forall|n: u64|
        m0.contains_key(#[trigger] pkey(org, repo, Status::Open, n)) && !lv.contains(n) ==> m[pkey(
            org,
            repo,
            Status::Open,
            n,
        )] == m0[pkey(org, repo, Status::Open, n)]
    &&& forall|n: u64|
        m.contains_key(#[trigger] pkey(org, repo, Status::Merged, n)) <==> (m0.contains_key(
            pkey(org, repo, Status::Merged, n),
        ) && !lv.contains(n))
    &&& forall|n: u64|
        m.contains_key(#[trigger] pkey(org, repo, Status::Merged, n)) ==> m[pkey(
            org,
            repo,
            Status::Merged,
            n,
        )] == m0[pkey(org, repo, Status::Merged, n)]
    &&& forall|n: u64|
        m.contains_key(#[trigger] pkey(org, repo, Status::Closed, n)) <==> (m0.contains_key(
            pkey(org, repo, Status::Closed, n),
        ) && !lv.contains(n))
    &&& forall|n: u64|
        m.contains_key(#[trigger] pkey(org, repo, Status::Closed, n)) ==> m[pkey(
            org,
            repo,
            Status::Closed,
            n,
        )] == m0[pkey(org, repo, Status::Closed, n)]
    &&& forall|k: Seq<u8>|
        (forall|n: u64|
            k != pkey(org, repo, Status::Open, n) && k != pkey(org, repo, Status::Merged, n) && k
                != pkey(org, repo, Status::Closed, n)) ==> ((#[trigger] m.contains_key(k) <==>
        m0.contains_key(k)) && (m0.contains_key(k) ==> m.contains_key(k) && m[k] == m0[k]))
}

/// The effect of the pull-request live-set upsert batch.
proof fn lemma_pr_upsert(
    m: Map<Seq<u8>, Seq<u8>>,
    org: Seq<u8>,
    repo: Seq<u8>,
    live: Seq<PullRequest>,
    ops: Seq<BatchOp>,
)
    requires
        ops.len() == 3 * live.len(),
        forall|t: int|
            0 <= t < live.len() ==> (#[trigger] ops[3 * t] matches BatchOp::Put(k, v) && k@
                == pkey(org, repo, Status::Open, live[t].pr_number) && v@ == spec_encode_pr(
                live[t],
            )),
        forall|t: int|
            0 <= t < live.len() ==> (#[trigger] ops[3 * t + 1] matches BatchOp::Del(k) && k@
                == pkey(org, repo, Status::Merged, live[t].pr_number)),
        forall|t: int|
            0 <= t < live.len() ==> (#[trigger] ops[3 * t + 2] matches BatchOp::Del(k) && k@
                == pkey(org, repo, Status::Closed, live[t].pr_number)),
    ensures
        pr_upsert_state(m, apply_ops(m, ops), org, repo, live),
    decreases live.len(),
{
    lemma_key_facts(org, repo);
    let m1 = apply_ops(m, ops);
    let lv = pr_live_numbers(live);
    if live.len() == 0 {
        assert(m1 == m);
        assert forall|n: u64| !lv.contains(n) by {}
    } else {
        let n0 = live[0].pr_number;
        let rest = live.subrange(1, live.len() as int);
        let ops_rest = ops.subrange(3, ops.len() as int);
        let ghost z: int = 0;
        assert(ops[3 * z] matches BatchOp::Put(k, v) && k@ == pkey(
            org,
            repo,
            Status::Open,
            live[z].pr_number,
        ) && v@ == spec_encode_pr(live[z]));
        assert(ops[3 * z + 1] matches BatchOp::Del(k) && k@ == pkey(
            org,
            repo,
            Status::Merged,
            live[z].pr_number,
        ));
        assert(ops[3 * z + 2] matches BatchOp::Del(k) && k@ == pkey(
            org,
            repo,
            Status::Closed,
            live[z].pr_number,
        ));
        assert(ops[0] == ops[3 * z] && ops[1] == ops[3 * z + 1] && ops[2] == ops[3 * z + 2]);
        let ma = apply_op(m, ops[0]);
        let mb = apply_op(ma, ops[1]);
        let mc = apply_op(mb, ops[2]);
        assert(mc == m.insert(pkey(org, repo, Status::Open, n0), spec_encode_pr(live[0])).remove(
            pkey(org, repo, Status::Merged, n0),
        ).remove(pkey(org, repo, Status::Closed, n0)));
        let tail1 = ops.subrange(1, ops.len() as int);
        let tail2 = tail1.subrange(1, tail1.len() as int);
        assert(tail2.subrange(1, tail2.len() as int) =~= ops_rest);
        assert(tail1[0] == ops[1] && tail2[0] == ops[2]);
        assert(apply_ops(m, ops) == apply_ops(ma, tail1));
        assert(apply_ops(ma, tail1) == apply_ops(mb, tail2));
        assert(apply_ops(mb, tail2) == apply_ops(mc, tail2.subrange(1, tail2.len() as int)));
        assert(m1 == apply_ops(mc, ops_rest));
        assert(ops_rest.len() == 3 * rest.len());
        assert forall|t: int|
            0 <= t < rest.len() implies (#[trigger] ops_rest[3 * t] matches BatchOp::Put(k, v)
            && k@ == pkey(org, repo, Status::Open, rest[t].pr_number) && v@ == spec_encode_pr(
            rest[t],
        )) by {
            assert(ops_rest[3 * t] == ops[3 * (t + 1)]);
            assert(rest[t] == live[t + 1]);
        }
        assert forall|t: int|
            0 <= t < rest.len() implies (#[trigger] ops_rest[3 * t + 1] matches BatchOp::Del(k)
            && k@ == pkey(org, repo, Status::Merged, rest[t].pr_number)) by {
            assert(ops_rest[3 * t + 1] == ops[3 * (t + 1) + 1]);
            assert(rest[t] == live[t + 1]);
        }
        assert forall|t: int|
            0 <= t < rest.len() implies (#[trigger] ops_rest[3 * t + 2] matches BatchOp::Del(k)
            && k@ == pkey(org, repo, Status::Closed, rest[t].pr_number)) by {
            assert(ops_rest[3 * t + 2] == ops[3 * (t + 1) + 2]);
            assert(rest[t] == live[t + 1]);
        }
        lemma_pr_upsert(mc, org, repo, rest, ops_rest);
        let lvr = pr_live_numbers(rest);
        assert forall|n: u64| lv.contains(n) <==> (lvr.contains(n) || n == n0) by {
            if lv.contains(n) {
                let j = choose|j: int| 0 <= j < live.len() && live[j].pr_number == n;
                if j > 0 {
                    assert(rest[j - 1] == live[j]);
                    assert(lvr.contains(n));
                }
            }
            if lvr.contains(n) {
                let j = choose|j: int| 0 <= j < rest.len() && rest[j].pr_number == n;
                assert(live[j + 1] == rest[j]);
                assert(lv.contains(n));
            }
            if n == n0 {
                assert(live[0].pr_number == n);
                assert(lv.contains(n));
            }
        }
        assert forall|n: u64|
            m1.contains_key(#[trigger] pkey(org, repo, Status::Open, n)) <==> (lv.contains(n)
                || m.contains_key(pkey(org, repo, Status::Open, n))) by {
            if n == n0 && !lvr.contains(n) {
                assert(mc.contains_key(pkey(org, repo, Status::Open, n)));
            }
        }
        assert forall|n: u64| lv.contains(n) implies exists|j: int|
            0 <= j < live.len() && live[j].pr_number == n && m1[#[trigger] pkey(
                org,
                repo,
                Status::Open,
                n,
            )] == spec_encode_pr(live[j]) by {
            if lvr.contains(n) {
                let j = choose|j: int|
                    0 <= j < rest.len() && rest[j].pr_number == n && m1[pkey(
                        org,
                        repo,
                        Status::Open,
                        n,
                    )] == spec_encode_pr(rest[j]);
                assert(live[j + 1] == rest[j]);
                assert(live[j + 1].pr_number == n && m1[pkey(org, repo, Status::Open, n)]
                    == spec_encode_pr(live[j + 1]));
            } else {
                assert(n == n0);
                assert(mc[pkey(org, repo, Status::Open, n)] == spec_encode_pr(live[0]));
                assert(m1[pkey(org, repo, Status::Open, n)] == spec_encode_pr(live[0]));
            }
        }
        assert forall|n: u64|
            m.contains_key(#[trigger] pkey(org, repo, Status::Open, n)) && !lv.contains(n)
                implies m1[pkey(org, repo, Status::Open, n)] == m[pkey(
                org,
                repo,
                Status::Open,
                n,
            )] by {
            assert(n != n0);
            assert(mc[pkey(org, repo, Status::Open, n)] == m[pkey(org, repo, Status::Open, n)]);
        }
        assert forall|n: u64|
            m1.contains_key(#[trigger] pkey(org, repo, Status::Merged, n)) <==> (m.contains_key(
                pkey(org, repo, Status::Merged, n),
            ) && !lv.contains(n)) by {}
        assert forall|n: u64|
            m1.contains_key(#[trigger] pkey(org, repo, Status::Merged, n)) implies m1[pkey(
                org,
                repo,
                Status::Merged,
                n,
            )] == m[pkey(org, repo, Status::Merged, n)] by {
            assert(n != n0);
            assert(mc.contains_key(pkey(org, repo, Status::Merged, n)));
            assert(mc[pkey(org, repo, Status::Merged, n)] == m[pkey(
                org,
                repo,
                Status::Merged,
                n,
            )]);
        }
        assert forall|n: u64|
            m1.contains_key(#[trigger] pkey(org, repo, Status::Closed, n)) <==> (m.contains_key(
                pkey(org, repo, Status::Closed, n),
            ) && !lv.contains(n)) by {}
        assert forall|n: u64|
            m1.contains_key(#[trigger] pkey(org, repo, Status::Closed, n)) implies m1[pkey(
                org,
                repo,
                Status::Closed,
                n,
            )] == m[pkey(org, repo, Status::Closed, n)] by {
            assert(n != n0);
            assert(mc.contains_key(pkey(org, repo, Status::Closed, n)));
            assert(mc[pkey(org, repo, Status::Closed, n)] == m[pkey(
                org,
                repo,
                Status::Closed,
                n,
            )]);
        }
        assert forall|k: Seq<u8>|
            (forall|n: u64|
                k != pkey(org, repo, Status::Open, n) && k != pkey(org, repo, Status::Merged, n)
                    && k != pkey(org, repo, Status::Closed, n)) implies ((
        #[trigger] m1.contains_key(k) <==> m.contains_key(k)) && (m.contains_key(k)
            ==> m1.contains_key(k) && m1[k] == m[k])) by {
            assert(k != pkey(org, repo, Status::Open, n0));
            assert(k != pkey(org, repo, Status::Merged, n0));
            assert(k != pkey(org, repo, Status::Closed, n0));
            assert(mc.contains_key(k) <==> m.contains_key(k));
        }
    }
}


/// The contract of the pull-request diff phase: the live set has been
/// upserted, `fresh` lists the live items that were not yet persisted as
/// open, and `departed` lists the persisted-open items the remote no longer
/// reports open, exactly once each.
pub open spec fn pr_reconcile_post(
    m0: Map<Seq<u8>, Seq<u8>>,
    m: Map<Seq<u8>, Seq<u8>>,
    org: Seq<u8>,
    repo: Seq<u8>,
    live: Seq<PullRequest>,
    fresh: Seq<PullRequest>,
    departed: Seq<PullRequest>,
) -> bool {
    let lv = pr_live_numbers(live);
    &&& pr_upsert_state(m0, m, org, repo, live)
    &&& forall|j: int|
        0 <= j < fresh.len() ==> !m0.contains_key(
            pkey(org, repo, Status::Open, (#[trigger] fresh[j]).pr_number),
        ) && (exists|jx: int|
            0 <= jx < live.len() && live[jx].pr_number == fresh[j].pr_number && spec_encode_pr(
                live[jx],
            ) == spec_encode_pr(fresh[j]))
    &&& forall|n: u64|
        lv.contains(n) && !m0.contains_key(#[trigger] pkey(org, repo, Status::Open, n)) ==> exists|
            j: int,
        | 0 <= j < fresh.len() && fresh[j].pr_number == n
    &&& forall|j: int|
        0 <= j < departed.len() ==> {
            let n = (#[trigger] departed[j]).pr_number;
            &&& m0.contains_key(pkey(org, repo, Status::Open, n))
            &&& m0[pkey(org, repo, Status::Open, n)] == spec_encode_pr(departed[j])
            &&& !lv.contains(n)
        }
    &&& forall|n: u64|
        m0.contains_key(#[trigger] pkey(org, repo, Status::Open, n)) && !lv.contains(n)
            ==> exists|j: int| 0 <= j < departed.len() && departed[j].pr_number == n
    &&& forall|j1: int, j2: int|
        0 <= j1 < j2 < departed.len() ==> (#[trigger] departed[j1]).pr_number != (
        #[trigger] departed[j2]).pr_number
}

/// An upsert never puts a pull request into two buckets, provided the store
/// it started from held none in two.
proof fn lemma_pr_state_disjoint(
    m0: Map<Seq<u8>, Seq<u8>>,
    m: Map<Seq<u8>, Seq<u8>>,
    org: Seq<u8>,
    repo: Seq<u8>,
    live: Seq<PullRequest>,
)
    requires
        pr_upsert_state(m0, m, org, repo, live),
        pr_buckets_disjoint(m0, org, repo),
    ensures
        pr_buckets_disjoint(m, org, repo),
{
    let lv = pr_live_numbers(live);
    assert forall|n: u64|
        {
            let o = m.contains_key(#[trigger] pkey(org, repo, Status::Open, n));
            let g = m.contains_key(pkey(org, repo, Status::Merged, n));
            let c = m.contains_key(pkey(org, repo, Status::Closed, n));
            !(o && g) && !(o && c) && !(g && c)
        } by {
        let o = m.contains_key(pkey(org, repo, Status::Open, n));
        let g = m.contains_key(pkey(org, repo, Status::Merged, n));
        let c = m.contains_key(pkey(org, repo, Status::Closed, n));
        if g {
            assert(m0.contains_key(pkey(org, repo, Status::Merged, n)) && !lv.contains(n));
        }
        if c {
            assert(m0.contains_key(pkey(org, repo, Status::Closed, n)) && !lv.contains(n));
        }
        if o && (g || c) {
            assert(!lv.contains(n));
            assert(m0.contains_key(pkey(org, repo, Status::Open, n)));
            assert(false);
        }
        if g && c {
            assert(false);
        }
    }
}

/// After the diff phase every pull-request bucket is well formed again, and
/// merged records still carry their timestamps.
proof fn lemma_pr_post_wf(
    m0: Map<Seq<u8>, Seq<u8>>,
    m: Map<Seq<u8>, Seq<u8>>,
    org: Seq<u8>,
    repo: Seq<u8>,
    live: Seq<PullRequest>,
)
    requires
        pr_upsert_state(m0, m, org, repo, live),
        pr_bucket_wf(m0, org, repo, Status::Open),
    ensures
        pr_bucket_wf(m, org, repo, Status::Open),
        pr_bucket_wf(m0, org, repo, Status::Merged) ==> pr_bucket_wf(m, org, repo, Status::Merged),
        pr_bucket_wf(m0, org, repo, Status::Closed) ==> pr_bucket_wf(m, org, repo, Status::Closed),
        merged_records_closed(m0, org, repo) ==> merged_records_closed(m, org, repo),
{
    lemma_key_facts(org, repo);
    let lv = pr_live_numbers(live);
    assert forall|k: Seq<u8>|
        #[trigger] m.contains_key(k) && starts_with(
            k,
            spec_bucket_prefix(org, repo, Category::PullRequest, Status::Open),
        ) implies exists|p: PullRequest|
        k == pkey(org, repo, Status::Open, p.pr_number) && m[k] == spec_encode_pr(p) by {
        if exists|n: u64| k == pkey(org, repo, Status::Open, n) {
            let n = choose|n: u64| k == pkey(org, repo, Status::Open, n);
            if lv.contains(n) {
                let j = choose|j: int|
                    0 <= j < live.len() && live[j].pr_number == n && m[pkey(
                        org,
                        repo,
                        Status::Open,
                        n,
                    )] == spec_encode_pr(live[j]);
                assert(k == pkey(org, repo, Status::Open, live[j].pr_number) && m[k]
                    == spec_encode_pr(live[j]));
            } else {
                assert(m0.contains_key(k));
                assert(m[k] == m0[k]);
                let p = choose|p: PullRequest|
                    k == pkey(org, repo, Status::Open, p.pr_number) && m0[k] == spec_encode_pr(p);
                assert(k == pkey(org, repo, Status::Open, p.pr_number) && m[k] == spec_encode_pr(
                    p,
                ));
            }
        } else if exists|n: u64, st: Status|
            st != Status::Open && k == pkey(org, repo, st, n) {
            let (n, st) = choose|n: u64, st: Status|
                st != Status::Open && k == pkey(org, repo, st, n);
            assert(!starts_with(
                k,
                spec_bucket_prefix(org, repo, Category::PullRequest, Status::Open),
            ));
            assert(false);
        } else {
            assert(forall|n: u64|
                k != pkey(org, repo, Status::Open, n) && k != pkey(org, repo, Status::Merged, n)
                    && k != pkey(org, repo, Status::Closed, n));
            assert(m0.contains_key(k));
            let p = choose|p: PullRequest|
                k == pkey(org, repo, Status::Open, p.pr_number) && m0[k] == spec_encode_pr(p);
            assert(false);
        }
    }
    assert forall|st: Status|
        st != Status::Open && pr_bucket_wf(m0, org, repo, st) implies pr_bucket_wf(
        m,
        org,
        repo,
        st,
    ) by {
        assert forall|k: Seq<u8>|
            #[trigger] m.contains_key(k) && starts_with(
                k,
                spec_bucket_prefix(org, repo, Category::PullRequest, st),
            ) implies exists|p: PullRequest|
            k == pkey(org, repo, st, p.pr_number) && m[k] == spec_encode_pr(p) by {
            if exists|n: u64, s2: Status| k == pkey(org, repo, s2, n) {
                let (n, s2) = choose|n: u64, s2: Status| k == pkey(org, repo, s2, n);
                if s2 != st {
                    assert(!starts_with(
                        k,
                        spec_bucket_prefix(org, repo, Category::PullRequest, st),
                    ));
                    assert(false);
                } else {
                    assert(m.contains_key(pkey(org, repo, st, n)));
                    assert(m0.contains_key(k));
                    assert(m[k] == m0[k]);
                    let p = choose|p: PullRequest|
                        k == pkey(org, repo, st, p.pr_number) && m0[k] == spec_encode_pr(p);
                    assert(k == pkey(org, repo, st, p.pr_number) && m[k] == spec_encode_pr(p));
                }
            } else {
                assert(forall|n: u64|
                    k != pkey(org, repo, Status::Open, n) && k != pkey(
                        org,
                        repo,
                        Status::Merged,
                        n,
                    ) && k != pkey(org, repo, Status::Closed, n));
                assert(m0.contains_key(k));
                let p = choose|p: PullRequest|
                    k == pkey(org, repo, st, p.pr_number) && m0[k] == spec_encode_pr(p);
                assert(false);
            }
        }
    }
    if merged_records_closed(m0, org, repo) {
        assert forall|k: Seq<u8>|
            #[trigger] m.contains_key(k) && starts_with(
                k,
                spec_bucket_prefix(org, repo, Category::PullRequest, Status::Merged),
            ) implies exists|p: PullRequest|
            m[k] == spec_encode_pr(p) && p.merged_at is Some && p.closed_at is Some by {
            if exists|n: u64, s2: Status| k == pkey(org, repo, s2, n) {
                let (n, s2) = choose|n: u64, s2: Status| k == pkey(org, repo, s2, n);
                if s2 != Status::Merged {
                    assert(!starts_with(
                        k,
                        spec_bucket_prefix(org, repo, Category::PullRequest, Status::Merged),
                    ));
                    assert(false);
                } else {
                    assert(m.contains_key(pkey(org, repo, Status::Merged, n)));
                    assert(m[k] == m0[k]);
                    assert(m0.contains_key(k));
                    let p = choose|p: PullRequest|
                        m0[k] == spec_encode_pr(p) && p.merged_at is Some && p.closed_at is Some;
                    assert(m[k] == spec_encode_pr(p) && p.merged_at is Some && p.closed_at
                        is Some);
                }
            } else {
                assert(forall|n: u64|
                    k != pkey(org, repo, Status::Open, n) && k != pkey(
                        org,
                        repo,
                        Status::Merged,
                        n,
                    ) && k != pkey(org, repo, Status::Closed, n));
                assert(m0.contains_key(k) && m[k] == m0[k]);
            }
        }
    }
}

/// A field-for-field copy of a pull-request record.
fn copy_pr(p: &PullRequest) -> (r: PullRequest)
    ensures
        r.pr_number == p.pr_number,
        spec_encode_pr(r) == spec_encode_pr(*p),
{
    let r = PullRequest {
        pr_number: p.pr_number,
        title: copy_opt_bytes(&p.title),
        body: copy_opt_bytes(&p.body),
        created_at: p.created_at,
        updated_at: p.updated_at,
        merged_at: p.merged_at,
        closed_at: p.closed_at,
        status: p.status,
        url: copy_opt_bytes(&p.url),
    };
    proof {
        assert(crate::codec::spec_enc_opt_bytes(r.title) == crate::codec::spec_enc_opt_bytes(
            p.title,
        ));
        assert(crate::codec::spec_enc_opt_bytes(r.body) == crate::codec::spec_enc_opt_bytes(
            p.body,
        ));
        assert(crate::codec::spec_enc_opt_bytes(r.url) == crate::codec::spec_enc_opt_bytes(p.url));
    }
    r
}


#[verifier::loop_isolation(false)]
fn read_open_prs(store: &Store, org: &Vec<u8>, repo: &Vec<u8>) -> (r: Result<
    Vec<PullRequest>,
    ReconcileError,
>)
    ensures
        r matches Ok(prev) ==> {
            &&& forall|t: int|
                0 <= t < prev@.len() ==> store@.contains_key(
                    #[trigger] pkey(org@, repo@, Status::Open, prev@[t].pr_number),
                ) && store@[pkey(org@, repo@, Status::Open, prev@[t].pr_number)]
                    == spec_encode_pr(prev@[t])
            &&& forall|n: u64|
                store@.contains_key(#[trigger] pkey(org@, repo@, Status::Open, n)) ==> exists|
                    t: int,
                | 0 <= t < prev@.len() && prev@[t].pr_number == n
            &&& forall|t1: int, t2: int|
                0 <= t1 < t2 < prev@.len() ==> prev@[t1].pr_number != prev@[t2].pr_number
            &&& pr_bucket_wf(store@, org@, repo@, Status::Open)
        },
        r == Err::<Vec<PullRequest>, ReconcileError>(ReconcileError::Encoding) ==> !pr_bucket_wf(
            store@,
            org@,
            repo@,
            Status::Open,
        ),
        r is Err ==> r == Err::<Vec<PullRequest>, ReconcileError>(ReconcileError::Store) || r
            == Err::<Vec<PullRequest>, ReconcileError>(ReconcileError::Encoding),
{
    proof {
        lemma_key_facts(org@, repo@);
    }
    let pre_open = bucket_prefix(org, repo, Category::PullRequest, Status::Open);
    let entries = match store.scan_prefix(&pre_open) {
        Result::Ok(e) => e,
        Result::Err(_) => {
            return Err(ReconcileError::Store);
        },
    };
    let n_entries = entries.len();
    let mut prev: Vec<PullRequest> = Vec::new();
    let mut idx: usize = 0;
    while idx < n_entries
        invariant
            idx <= n_entries,
            prev@.len() == idx,
            forall|j: int|
                0 <= j < idx ==> (#[trigger] entries@[j]).0@ == pkey(
                    org@,
                    repo@,
                    Status::Open,
                    prev@[j].pr_number,
                ) && entries@[j].1@ == spec_encode_pr(prev@[j]),
        decreases n_entries - idx,
    {
        let o = match decode_pr(&entries[idx].1) {
            Option::Some(o) => o,
            Option::None => {
                proof {
                    let bad = entries@[idx as int].0@;
                    assert(store@.contains_key(bad));
                    assert forall|p: PullRequest|
                        !(bad == pkey(org@, repo@, Status::Open, p.pr_number) && store@[bad]
                            == spec_encode_pr(p)) by {
                        if bad == pkey(org@, repo@, Status::Open, p.pr_number) && store@[bad]
                            == spec_encode_pr(p) {
                            assert(entries@[idx as int].1@ == spec_encode_pr(p));
                        }
                    }
                    assert(!pr_bucket_wf(store@, org@, repo@, Status::Open));
                }
                return Err(ReconcileError::Encoding);
            },
        };
        let expected = item_key(org, repo, Category::PullRequest, Status::Open, o.pr_number);
        if !bytes_eq(&entries[idx].0, &expected) {
            proof {
                let bad = entries@[idx as int].0@;
                assert(store@.contains_key(bad));
                assert forall|p: PullRequest|
                    !(bad == pkey(org@, repo@, Status::Open, p.pr_number) && store@[bad]
                        == spec_encode_pr(p)) by {
                    if bad == pkey(org@, repo@, Status::Open, p.pr_number) && store@[bad]
                        == spec_encode_pr(p) {
                        crate::codec::lemma_pr_number_of_enc(o, p);
                    }
                }
                assert(!pr_bucket_wf(store@, org@, repo@, Status::Open));
            }
            return Err(ReconcileError::Encoding);
        }
        prev.push(o);
        idx += 1;
    }
    proof {
        assert forall|n: u64|
            store@.contains_key(#[trigger] pkey(org@, repo@, Status::Open, n)) implies exists|
            t: int,
        | 0 <= t < prev@.len() && prev@[t].pr_number == n by {
            let k = pkey(org@, repo@, Status::Open, n);
            let j = choose|j: int| 0 <= j < entries@.len() && entries@[j].0@ == k;
            assert(prev@[j].pr_number == n);
        }
        assert forall|t1: int, t2: int| 0 <= t1 < t2 < prev@.len() implies prev@[t1].pr_number
            != prev@[t2].pr_number by {
            assert(entries@[t1].0@ != entries@[t2].0@);
        }
        assert forall|t: int| 0 <= t < prev@.len() implies store@.contains_key(
            #[trigger] pkey(org@, repo@, Status::Open, prev@[t].pr_number),
        ) && store@[pkey(org@, repo@, Status::Open, prev@[t].pr_number)] == spec_encode_pr(
            prev@[t],
        ) by {
            assert(store@.contains_key(entries@[t].0@));
        }
        assert forall|k: Seq<u8>|
            #[trigger] store@.contains_key(k) && starts_with(
                k,
                spec_bucket_prefix(org@, repo@, Category::PullRequest, Status::Open),
            ) implies exists|p: PullRequest|
            k == pkey(org@, repo@, Status::Open, p.pr_number) && store@[k] == spec_encode_pr(
                p,
            ) by {
            let j2 = choose|j2: int| 0 <= j2 < entries@.len() && entries@[j2].0@ == k;
            assert(k == pkey(org@, repo@, Status::Open, prev@[j2].pr_number) && store@[k]
                == spec_encode_pr(prev@[j2]));
        }
    }
    Ok(prev)
}

#[verifier::loop_isolation(false)]
fn select_fresh(live: &Vec<PullRequest>, prev_nums: &Vec<u64>) -> (fresh: Vec<PullRequest>)
    ensures
        forall|t: int|
            0 <= t < fresh@.len() ==> !prev_nums@.contains((#[trigger] fresh@[t]).pr_number) && (
            exists|jx: int|
                0 <= jx < live@.len() && live@[jx].pr_number == fresh@[t].pr_number
                    && spec_encode_pr(live@[jx]) == spec_encode_pr(fresh@[t])),
        forall|x: u64|
            pr_live_numbers(live@).contains(x) && !prev_nums@.contains(x) ==> exists|t: int|
                0 <= t < fresh@.len() && fresh@[t].pr_number == x,
{
    let mut fresh: Vec<PullRequest> = Vec::new();
    let n_live = live.len();
    let mut j: usize = 0;
    while j < n_live
        invariant
            j <= n_live,
            n_live == live@.len(),
            forall|t: int|
                0 <= t < fresh@.len() ==> !prev_nums@.contains((#[trigger] fresh@[t]).pr_number)
                    && (exists|jx: int|
                    0 <= jx < live@.len() && live@[jx].pr_number == fresh@[t].pr_number
                        && spec_encode_pr(live@[jx]) == spec_encode_pr(fresh@[t])),
            forall|x: u64|
                (exists|jx: int| 0 <= jx < j && live@[jx].pr_number == x) && !prev_nums@.contains(
                    x,
                ) ==> exists|t: int| 0 <= t < fresh@.len() && fresh@[t].pr_number == x,
        decreases n_live - j,
    {
        let n = live[j].pr_number;
        let ghost fresh_pre = fresh@;
        if !contains_u64(prev_nums, n) {
            fresh.push(copy_pr(&live[j]));
            proof {
                assert(fresh@[fresh@.len() - 1].pr_number == n);
                assert(forall|t: int| 0 <= t < fresh_pre.len() ==> fresh@[t] == fresh_pre[t]);
            }
        }
        j += 1;
        proof {
            assert forall|x: u64|
                (exists|jx: int| 0 <= jx < j && live@[jx].pr_number == x) && !prev_nums@.contains(
                    x,
                ) implies exists|t: int| 0 <= t < fresh@.len() && fresh@[t].pr_number == x by {
                let jx = choose|jx: int| 0 <= jx < j && live@[jx].pr_number == x;
                if jx < j - 1 {
                    let t = choose|t: int|
                        0 <= t < fresh_pre.len() && fresh_pre[t].pr_number == x;
                    assert(fresh@[t].pr_number == x);
                } else {
                    assert(x == n);
                    assert(fresh@[fresh@.len() - 1].pr_number == x);
                }
            }
        }
    }
    proof {
        assert forall|x: u64|
            pr_live_numbers(live@).contains(x) && !prev_nums@.contains(x) implies exists|t: int|
            0 <= t < fresh@.len() && fresh@[t].pr_number == x by {
            let jx = choose|jx: int| 0 <= jx < live@.len() && live@[jx].pr_number == x;
        }
    }
    fresh
}

#[verifier::loop_isolation(false)]
fn select_departed(prev: &Vec<PullRequest>, live_nums: &Vec<u64>) -> (dep: Vec<PullRequest>)
    requires
        forall|t1: int, t2: int|
            0 <= t1 < t2 < prev@.len() ==> (#[trigger] prev@[t1]).pr_number != (
            #[trigger] prev@[t2]).pr_number,
    ensures
        forall|s: int|
            0 <= s < dep@.len() ==> !live_nums@.contains((#[trigger] dep@[s]).pr_number) && (
            exists|s2: int|
                0 <= s2 < prev@.len() && prev@[s2].pr_number == dep@[s].pr_number
                    && spec_encode_pr(prev@[s2]) == spec_encode_pr(dep@[s])),
        forall|s: int|
            0 <= s < prev@.len() && !live_nums@.contains((#[trigger] prev@[s]).pr_number)
                ==> exists|s2: int| 0 <= s2 < dep@.len() && dep@[s2].pr_number
                == prev@[s].pr_number,
        forall|s1: int, s2: int|
            0 <= s1 < s2 < dep@.len() ==> (#[trigger] dep@[s1]).pr_number != (
            #[trigger] dep@[s2]).pr_number,
{
    let mut dep: Vec<PullRequest> = Vec::new();
    let n_prev = prev.len();
    let mut t: usize = 0;
    while t < n_prev
        invariant
            t <= n_prev,
            n_prev == prev@.len(),
            forall|s: int|
                0 <= s < dep@.len() ==> !live_nums@.contains((#[trigger] dep@[s]).pr_number) && (
                exists|s2: int|
                    0 <= s2 < t && prev@[s2].pr_number == dep@[s].pr_number && spec_encode_pr(
                        prev@[s2],
                    ) == spec_encode_pr(dep@[s])),
            forall|s: int|
                0 <= s < t && !live_nums@.contains((#[trigger] prev@[s]).pr_number) ==> exists|
                    s2: int,
                | 0 <= s2 < dep@.len() && dep@[s2].pr_number == prev@[s].pr_number,
            forall|s1: int, s2: int|
                0 <= s1 < s2 < dep@.len() ==> (#[trigger] dep@[s1]).pr_number != (
                #[trigger] dep@[s2]).pr_number,
        decreases n_prev - t,
    {
        let n = prev[t].pr_number;
        let ghost dep_pre = dep@;
        if !contains_u64(live_nums, n) {
            let c = copy_pr(&prev[t]);
            proof {
                assert forall|s1: int| 0 <= s1 < dep_pre.len() implies (
                #[trigger] dep_pre[s1]).pr_number != n by {
                    let s2 = choose|s2: int|
                        0 <= s2 < t && prev@[s2].pr_number == dep_pre[s1].pr_number;
                    assert(prev@[s2].pr_number != prev@[t as int].pr_number);
                }
            }
            dep.push(c);
            proof {
                assert(dep@[dep@.len() - 1] == c);
                assert(forall|s: int| 0 <= s < dep_pre.len() ==> dep@[s] == dep_pre[s]);
            }
        }
        t += 1;
    }
    dep
}

#[verifier::loop_isolation(false)]
fn build_pr_upsert_ops(org: &Vec<u8>, repo: &Vec<u8>, live: &Vec<PullRequest>) -> (ops: Vec<
    BatchOp,
>)
    ensures
        ops@.len() == 3 * live@.len(),
        forall|t: int|
            0 <= t < live@.len() ==> (#[trigger] ops@[3 * t] matches BatchOp::Put(k, v) && k@
                == pkey(org@, repo@, Status::Open, live@[t].pr_number) && v@ == spec_encode_pr(
                live@[t],
            )),
        forall|t: int|
            0 <= t < live@.len() ==> (#[trigger] ops@[3 * t + 1] matches BatchOp::Del(k) && k@
                == pkey(org@, repo@, Status::Merged, live@[t].pr_number)),
        forall|t: int|
            0 <= t < live@.len() ==> (#[trigger] ops@[3 * t + 2] matches BatchOp::Del(k) && k@
                == pkey(org@, repo@, Status::Closed, live@[t].pr_number)),
{
    let mut ops: Vec<BatchOp> = Vec::new();
    let n_live = live.len();
    let mut u: usize = 0;
    while u < n_live
        invariant
            u <= n_live,
            n_live == live@.len(),
            ops@.len() == 3 * u,
            forall|w: int|
                0 <= w < u ==> (#[trigger] ops@[3 * w] matches BatchOp::Put(k, v) && k@ == pkey(
                    org@,
                    repo@,
                    Status::Open,
                    live@[w].pr_number,
                ) && v@ == spec_encode_pr(live@[w])),
            forall|w: int|
                0 <= w < u ==> (#[trigger] ops@[3 * w + 1] matches BatchOp::Del(k) && k@ == pkey(
                    org@,
                    repo@,
                    Status::Merged,
                    live@[w].pr_number,
                )),
            forall|w: int|
                0 <= w < u ==> (#[trigger] ops@[3 * w + 2] matches BatchOp::Del(k) && k@ == pkey(
                    org@,
                    repo@,
                    Status::Closed,
                    live@[w].pr_number,
                )),
        decreases n_live - u,
    {
        let n = live[u].pr_number;
        let k_open = item_key(org, repo, Category::PullRequest, Status::Open, n);
        let v = encode_pr(&live[u]);
        ops.push(BatchOp::Put(k_open, v));
        let k_merged = item_key(org, repo, Category::PullRequest, Status::Merged, n);
        ops.push(BatchOp::Del(k_merged));
        let k_closed = item_key(org, repo, Category::PullRequest, Status::Closed, n);
        ops.push(BatchOp::Del(k_closed));
        u += 1;
    }
    ops
}

/// Diffs one repository's pull requests against the live set of currently
/// open pull requests.
///
/// The live set is upserted into the open bucket in one atomic batch; a live
/// item found in a terminal bucket returns to open (a reopening, recorded
/// without an event). The call returns the first-seen live items and the
/// previously-open items the remote no longer lists; each of the latter
/// still awaits its fresh detail and a `settle_pr` call, which performs the
/// actual bucket move. Malformed persisted records surface as an encoding
/// failure before anything is written.
pub fn update_pr_status(
    store: &mut Store,
    org: &Vec<u8>,
    repo: &Vec<u8>,
    live_open: &Vec<PullRequest>,
) -> (r: Result<(Vec<PullRequest>, Vec<PullRequest>), ReconcileError>)
    ensures
        r matches Ok(out) ==> pr_reconcile_post(
            old(store)@,
            final(store)@,
            org@,
            repo@,
            live_open@,
            out.0@,
            out.1@,
        ) && pr_bucket_wf(old(store)@, org@, repo@, Status::Open),
        r matches Ok(out) ==> pr_bucket_wf(final(store)@, org@, repo@, Status::Open) && (
        pr_bucket_wf(old(store)@, org@, repo@, Status::Merged) ==> pr_bucket_wf(
            final(store)@,
            org@,
            repo@,
            Status::Merged,
        )) && (pr_bucket_wf(old(store)@, org@, repo@, Status::Closed) ==> pr_bucket_wf(
            final(store)@,
            org@,
            repo@,
            Status::Closed,
        )) && (merged_records_closed(old(store)@, org@, repo@) ==> merged_records_closed(
            final(store)@,
            org@,
            repo@,
        )),
        r == Err::<(Vec<PullRequest>, Vec<PullRequest>), ReconcileError>(
            ReconcileError::Encoding,
        ) ==> final(store)@ == old(store)@ && !pr_bucket_wf(old(store)@, org@, repo@, Status::Open),
        r is Err ==> r == Err::<(Vec<PullRequest>, Vec<PullRequest>), ReconcileError>(
            ReconcileError::Store,
        ) || r == Err::<(Vec<PullRequest>, Vec<PullRequest>), ReconcileError>(
            ReconcileError::Encoding,
        ),
        r is Err ==> final(store)@ == old(store)@,
        pr_buckets_disjoint(old(store)@, org@, repo@) ==> pr_buckets_disjoint(
            final(store)@,
            org@,
            repo@,
        ),
{
    proof {
        lemma_key_facts(org@, repo@);
    }
    let ghost m0 = store@;
    let prev = match read_open_prs(store, org, repo) {
        Result::Ok(p) => p,
        Result::Err(e) => {
            return Err(e);
        },
    };
    let live_nums = pr_nums(live_open);
    let prev_nums = pr_nums(&prev);
    let fresh = select_fresh(live_open, &prev_nums);
    let departed = select_departed(&prev, &live_nums);
    proof {
        assert forall|t: int|
            0 <= t < fresh@.len() implies !m0.contains_key(
                pkey(org@, repo@, Status::Open, (#[trigger] fresh@[t]).pr_number),
            ) by {
            if m0.contains_key(pkey(org@, repo@, Status::Open, fresh@[t].pr_number)) {
                let s = choose|s: int|
                    0 <= s < prev@.len() && prev@[s].pr_number == fresh@[t].pr_number;
                assert(prev_nums@[s] == prev@[s].pr_number);
                assert(prev_nums@.contains(fresh@[t].pr_number));
            }
        }
        assert forall|n: u64|
            pr_live_numbers(live_open@).contains(n) && !m0.contains_key(
                #[trigger] pkey(org@, repo@, Status::Open, n),
            ) implies exists|j: int| 0 <= j < fresh@.len() && fresh@[j].pr_number == n by {
            assert(!prev_nums@.contains(n)) by {
                if prev_nums@.contains(n) {
                    let s = choose|s: int|
                        0 <= s < prev_nums@.len() && prev_nums@[s] == n;
                    assert(prev@[s].pr_number == n);
                }
            }
        }
        assert forall|s: int|
            0 <= s < departed@.len() implies {
            let n = (#[trigger] departed@[s]).pr_number;
            &&& m0.contains_key(pkey(org@, repo@, Status::Open, n))
            &&& m0[pkey(org@, repo@, Status::Open, n)] == spec_encode_pr(departed@[s])
            &&& !pr_live_numbers(live_open@).contains(n)
        } by {
            let s2 = choose|s2: int|
                0 <= s2 < prev@.len() && prev@[s2].pr_number == departed@[s].pr_number
                    && spec_encode_pr(prev@[s2]) == spec_encode_pr(departed@[s]);
        }
        assert forall|n: u64|
            m0.contains_key(#[trigger] pkey(org@, repo@, Status::Open, n))
                && !pr_live_numbers(live_open@).contains(n) implies exists|j: int|
            0 <= j < departed@.len() && departed@[j].pr_number == n by {
            let s = choose|s: int| 0 <= s < prev@.len() && prev@[s].pr_number == n;
            assert(!live_nums@.contains(n));
        }
    }
    let ops = build_pr_upsert_ops(org, repo, live_open);
    match store.apply_batch(&ops) {
        Result::Ok(_) => (),
        Result::Err(_) => {
            return Err(ReconcileError::Store);
        },
    }
    proof {
        lemma_pr_upsert(m0, org@, repo@, live_open@, ops@);
        if pr_buckets_disjoint(m0, org@, repo@) {
            lemma_pr_state_disjoint(m0, store@, org@, repo@, live_open@);
        }
        lemma_pr_post_wf(m0, store@, org@, repo@, live_open@);
    }
    Ok((fresh, departed))
}


/// The record a settled pull request is persisted as: the freshly fetched
/// merge and close timestamps and the new status, over the known fields.
pub open spec fn settled_pr(
    p: PullRequest,
    merged_at: Option<i64>,
    closed_at: Option<i64>,
    st: Status,
) -> PullRequest {
    PullRequest { merged_at, closed_at, status: Some(st), ..p }
}

/// The store's contents after one settled pull request: the item has left
/// the open bucket (and any stale terminal entry), and its refreshed record
/// sits in the bucket of its new status.
pub open spec fn pr_settled_map(
    m0: Map<Seq<u8>, Seq<u8>>,
    org: Seq<u8>,
    repo: Seq<u8>,
    p: PullRequest,
    merged_at: Option<i64>,
    closed_at: Option<i64>,
    st: Status,
) -> Map<Seq<u8>, Seq<u8>> {
    m0.remove(pkey(org, repo, Status::Open, p.pr_number)).remove(
        pkey(org, repo, Status::Merged, p.pr_number),
    ).remove(pkey(org, repo, Status::Closed, p.pr_number)).insert(
        pkey(org, repo, st, p.pr_number),
        spec_encode_pr(settled_pr(p, merged_at, closed_at, st)),
    )
}

/// Settles one pull request that the live feed no longer reports open,
/// given its freshly fetched merge and close timestamps.
///
/// Both timestamps present mean the item was merged; a close timestamp alone
/// means it was closed; in either case the item moves atomically from the
/// open bucket into the bucket of its new status and the transition is
/// reported. Neither timestamp means the remote still considers it open:
/// nothing changes and nothing is reported. A merge timestamp without a
/// close timestamp violates the data model and is reported for this item
/// alone, with the store untouched, so the remaining items of the pass can
/// proceed.
#[verifier::loop_isolation(false)]
pub fn settle_pr(
    store: &mut Store,
    org: &Vec<u8>,
    repo: &Vec<u8>,
    pr: PullRequest,
    merged_at: Option<i64>,
    closed_at: Option<i64>,
) -> (r: Result<Option<TransitionEvent>, ReconcileError>)
    ensures
        merged_at is None && closed_at is None <==> r == Ok::<
            Option<TransitionEvent>,
            ReconcileError,
        >(None),
        merged_at is Some && closed_at is None <==> r == Err::<
            Option<TransitionEvent>,
            ReconcileError,
        >(ReconcileError::Classification),
        r matches Ok(Some(e)) ==> {
            let st = if merged_at is Some {
                Status::Merged
            } else {
                Status::Closed
            };
            &&& closed_at is Some
            &&& e.organization@ == org@
            &&& e.repository@ == repo@
            &&& e.category == Category::PullRequest
            &&& e.number == pr.pr_number
            &&& e.from_status == Status::Open
            &&& e.to_status == st
            &&& final(store)@ == pr_settled_map(
                old(store)@,
                org@,
                repo@,
                pr,
                merged_at,
                closed_at,
                st,
            )
        },
        closed_at is Some ==> (r matches Ok(o) && o is Some) || r == Err::<
            Option<TransitionEvent>,
            ReconcileError,
        >(ReconcileError::Store),
        r matches Ok(o) && o is None ==> final(store)@ == old(store)@,
        r is Err ==> final(store)@ == old(store)@,
        r is Err ==> r == Err::<Option<TransitionEvent>, ReconcileError>(ReconcileError::Store)
            || r == Err::<Option<TransitionEvent>, ReconcileError>(ReconcileError::Classification),
        pr_buckets_disjoint(old(store)@, org@, repo@) ==> pr_buckets_disjoint(
            final(store)@,
            org@,
            repo@,
        ),
        merged_records_closed(old(store)@, org@, repo@) ==> merged_records_closed(
            final(store)@,
            org@,
            repo@,
        ),
        pr_bucket_wf(old(store)@, org@, repo@, Status::Open) ==> pr_bucket_wf(
            final(store)@,
            org@,
            repo@,
            Status::Open,
        ),
        pr_bucket_wf(old(store)@, org@, repo@, Status::Merged) ==> pr_bucket_wf(
            final(store)@,
            org@,
            repo@,
            Status::Merged,
        ),
        pr_bucket_wf(old(store)@, org@, repo@, Status::Closed) ==> pr_bucket_wf(
            final(store)@,
            org@,
            repo@,
            Status::Closed,
        ),
{
    proof {
        lemma_key_facts(org@, repo@);
    }
    let st = match classify_status(merged_at, closed_at) {
        Option::Some(Status::Open) => {
            return Ok(None);
        },
        Option::Some(st) => st,
        Option::None => {
            return Err(ReconcileError::Classification);
        },
    };
    let ghost m0 = store@;
    let n = pr.pr_number;
    let k_open = item_key(org, repo, Category::PullRequest, Status::Open, n);
    let k_merged = item_key(org, repo, Category::PullRequest, Status::Merged, n);
    let k_closed = item_key(org, repo, Category::PullRequest, Status::Closed, n);
    let k_target = item_key(org, repo, Category::PullRequest, st, n);
    let updated = PullRequest { merged_at, closed_at, status: Some(st), ..pr };
    let v = encode_pr(&updated);
    let mut ops: Vec<BatchOp> = Vec::new();
    ops.push(BatchOp::Del(k_open));
    ops.push(BatchOp::Del(k_merged));
    ops.push(BatchOp::Del(k_closed));
    ops.push(BatchOp::Put(k_target, v));
    match store.apply_batch(&ops) {
        Result::Ok(_) => (),
        Result::Err(_) => {
            return Err(ReconcileError::Store);
        },
    }
    proof {
        let ko = pkey(org@, repo@, Status::Open, n);
        let kg = pkey(org@, repo@, Status::Merged, n);
        let kc = pkey(org@, repo@, Status::Closed, n);
        let kt = pkey(org@, repo@, st, n);
        assert(ops@.len() == 4);
        let t1 = ops@.subrange(1, 4);
        let t2 = t1.subrange(1, 3);
        let t3 = t2.subrange(1, 2);
        assert(t1[0] == ops@[1] && t2[0] == ops@[2] && t3[0] == ops@[3]);
        assert(t1.subrange(1, t1.len() as int) =~= t2);
        assert(t2.subrange(1, t2.len() as int) =~= t3);
        assert(t3.subrange(1, t3.len() as int) =~= Seq::<BatchOp>::empty());
        let ma = apply_op(m0, ops@[0]);
        let mb = apply_op(ma, ops@[1]);
        let mc = apply_op(mb, ops@[2]);
        let md = apply_op(mc, ops@[3]);
        assert(apply_ops(m0, ops@) == apply_ops(ma, t1));
        assert(apply_ops(ma, t1) == apply_ops(mb, t2));
        assert(apply_ops(mb, t2) == apply_ops(mc, t3));
        assert(apply_ops(mc, t3) == apply_ops(md, t3.subrange(1, t3.len() as int)));
        assert(store@ == m0.remove(ko).remove(kg).remove(kc).insert(kt, spec_encode_pr(updated)));
        assert(updated == settled_pr(pr, merged_at, closed_at, st));
        if pr_buckets_disjoint(m0, org@, repo@) {
            assert forall|x: u64|
                {
                    let o = store@.contains_key(#[trigger] pkey(org@, repo@, Status::Open, x));
                    let g = store@.contains_key(pkey(org@, repo@, Status::Merged, x));
                    let c = store@.contains_key(pkey(org@, repo@, Status::Closed, x));
                    !(o && g) && !(o && c) && !(g && c)
                } by {
                if x != n {
                    assert(pkey(org@, repo@, Status::Open, x) != kt);
                    assert(pkey(org@, repo@, Status::Merged, x) != kt);
                    assert(pkey(org@, repo@, Status::Closed, x) != kt);
                    assert(pkey(org@, repo@, Status::Open, x) != ko && pkey(
                        org@,
                        repo@,
                        Status::Open,
                        x,
                    ) != kg && pkey(org@, repo@, Status::Open, x) != kc);
                }
            }
        }
        if merged_records_closed(m0, org@, repo@) {
            assert forall|k: Seq<u8>|
                #[trigger] store@.contains_key(k) && starts_with(
                    k,
                    spec_bucket_prefix(org@, repo@, Category::PullRequest, Status::Merged),
                ) implies exists|p2: PullRequest|
                store@[k] == spec_encode_pr(p2) && p2.merged_at is Some && p2.closed_at
                    is Some by {
                if k == kt {
                    if st == Status::Merged {
                        assert(updated.merged_at is Some && updated.closed_at is Some);
                        assert(store@[k] == spec_encode_pr(updated));
                    } else {
                        assert(!starts_with(
                            kt,
                            spec_bucket_prefix(org@, repo@, Category::PullRequest, Status::Merged),
                        ));
                        assert(false);
                    }
                } else {
                    assert(m0.contains_key(k) && store@[k] == m0[k]);
                }
            }
        }
        assert forall|stw: Status| pr_bucket_wf(m0, org@, repo@, stw) implies pr_bucket_wf(
            store@,
            org@,
            repo@,
            stw,
        ) by {
            assert forall|k: Seq<u8>|
                #[trigger] store@.contains_key(k) && starts_with(
                    k,
                    spec_bucket_prefix(org@, repo@, Category::PullRequest, stw),
                ) implies exists|p2: PullRequest|
                k == pkey(org@, repo@, stw, p2.pr_number) && store@[k] == spec_encode_pr(p2) by {
                if k == kt {
                    if stw == st {
                        assert(k == pkey(org@, repo@, stw, updated.pr_number) && store@[k]
                            == spec_encode_pr(updated));
                    } else {
                        assert(!starts_with(
                            kt,
                            spec_bucket_prefix(org@, repo@, Category::PullRequest, stw),
                        ));
                        assert(false);
                    }
                } else {
                    assert(m0.contains_key(k) && store@[k] == m0[k]);
                    let p2 = choose|p2: PullRequest|
                        k == pkey(org@, repo@, stw, p2.pr_number) && m0[k] == spec_encode_pr(p2);
                    assert(k == pkey(org@, repo@, stw, p2.pr_number) && store@[k]
                        == spec_encode_pr(p2));
                }
            }
        }
    }
    let e = TransitionEvent {
        organization: copy_bytes(org),
        repository: copy_bytes(repo),
        category: Category::PullRequest,
        number: n,
        from_status: Status::Open,
        to_status: st,
    };
    Ok(Some(e))
}


/// Idempotence for issues: when a reconciliation pass has completed and the
/// remote reports the same live set again, the second pass closes nothing,
/// so it reports no transitions at all.
pub proof fn lemma_issue_reconcile_idempotent(
    m0: Map<Seq<u8>, Seq<u8>>,
    m1: Map<Seq<u8>, Seq<u8>>,
    m2: Map<Seq<u8>, Seq<u8>>,
    org: Seq<u8>,
    repo: Seq<u8>,
    live: Seq<Issue>,
    moved1: Seq<Issue>,
    moved2: Seq<Issue>,
)
    requires
        issue_reconcile_post(m0, m1, org, repo, live, moved1),
        issue_reconcile_post(m1, m2, org, repo, live, moved2),
    ensures
        moved2 =~= Seq::<Issue>::empty(),
        forall|n: u64|
            m1.contains_key(#[trigger] ikey(org, repo, Status::Open, n))
                <==> issue_live_numbers(live).contains(n),
{
    let lv = issue_live_numbers(live);
    assert forall|n: u64|
        m1.contains_key(#[trigger] ikey(org, repo, Status::Open, n)) <==> lv.contains(n) by {
        if m1.contains_key(ikey(org, repo, Status::Open, n)) && !lv.contains(n) {
            assert(issue_numbers_of(moved1).contains(n));
        }
    }
    if moved2.len() > 0 {
        let n = moved2[0].issue_number as u64;
        assert(m1.contains_key(ikey(org, repo, Status::Open, n)) && !lv.contains(n));
        assert(false);
    }
}

/// Idempotence for pull requests: once every departed item of a pass has
/// been settled, the open bucket holds only live numbers, and a second pass
/// against the same live set finds nothing departed, so no transition is
/// detected or reported.
pub proof fn lemma_pr_reconcile_idempotent(
    m1: Map<Seq<u8>, Seq<u8>>,
    m2: Map<Seq<u8>, Seq<u8>>,
    org: Seq<u8>,
    repo: Seq<u8>,
    live: Seq<PullRequest>,
    fresh2: Seq<PullRequest>,
    departed2: Seq<PullRequest>,
)
    requires
        forall|n: u64|
            m1.contains_key(#[trigger] pkey(org, repo, Status::Open, n)) ==> pr_live_numbers(
                live,
            ).contains(n),
        pr_reconcile_post(m1, m2, org, repo, live, fresh2, departed2),
    ensures
        departed2 =~= Seq::<PullRequest>::empty(),
{
    if departed2.len() > 0 {
        let n = departed2[0].pr_number;
        assert(m1.contains_key(pkey(org, repo, Status::Open, n)) && !pr_live_numbers(
            live,
        ).contains(n));
        assert(false);
    }
}

/// After a pass whose departed items have all been settled into terminal
/// buckets, the open bucket holds live numbers only: exactly the premise
/// under which a repeated pass detects nothing.
pub proof fn lemma_pr_settled_open_subset(
    m0: Map<Seq<u8>, Seq<u8>>,
    m1: Map<Seq<u8>, Seq<u8>>,
    ms: Map<Seq<u8>, Seq<u8>>,
    org: Seq<u8>,
    repo: Seq<u8>,
    live: Seq<PullRequest>,
    fresh: Seq<PullRequest>,
    departed: Seq<PullRequest>,
)
    requires
        pr_reconcile_post(m0, m1, org, repo, live, fresh, departed),
        forall|n: u64|
            ms.contains_key(#[trigger] pkey(org, repo, Status::Open, n)) ==> m1.contains_key(
                pkey(org, repo, Status::Open, n),
            ) && !(exists|j: int| 0 <= j < departed.len() && departed[j].pr_number == n),
    ensures
        forall|n: u64|
            ms.contains_key(#[trigger] pkey(org, repo, Status::Open, n)) ==> pr_live_numbers(
                live,
            ).contains(n),
{
    let lv = pr_live_numbers(live);
    assert forall|n: u64|
        ms.contains_key(#[trigger] pkey(org, repo, Status::Open, n)) implies lv.contains(n) by {
        if !lv.contains(n) {
            assert(m1.contains_key(pkey(org, repo, Status::Open, n)));
            assert(m0.contains_key(pkey(org, repo, Status::Open, n)));
            assert(exists|j: int| 0 <= j < departed.len() && departed[j].pr_number == n);
            assert(false);
        }
    }
}

/// The item numbers one status bucket currently holds. Lets a caller see a
/// bucket without touching it; a malformed record surfaces as an encoding
/// failure, as it would in a reconciliation pass.
#[verifier::loop_isolation(false)]
pub fn bucket_numbers(
    store: &Store,
    org: &Vec<u8>,
    repo: &Vec<u8>,
    cat: Category,
    st: Status,
) -> (r: Result<Vec<u64>, ReconcileError>)
    ensures
        r matches Ok(nums) ==> {
            &&& forall|n: u64|
                nums@.contains(n) <==> store@.contains_key(
                    #[trigger] spec_item_key(org@, repo@, cat, st, n),
                )
            &&& forall|t1: int, t2: int| 0 <= t1 < t2 < nums@.len() ==> nums@[t1] != nums@[t2]
        },
        r is Err ==> r == Err::<Vec<u64>, ReconcileError>(ReconcileError::Store) || r == Err::<
            Vec<u64>,
            ReconcileError,
        >(ReconcileError::Encoding),
{
    proof {
        lemma_key_facts(org@, repo@);
    }
    let prefix = bucket_prefix(org, repo, cat, st);
    let entries = match store.scan_prefix(&prefix) {
        Result::Ok(e) => e,
        Result::Err(_) => {
            return Err(ReconcileError::Store);
        },
    };
    let n_entries = entries.len();
    let mut nums: Vec<u64> = Vec::new();
    let mut idx: usize = 0;
    while idx < n_entries
        invariant
            idx <= n_entries,
            nums@.len() == idx,
            forall|j: int|
                0 <= j < idx ==> (#[trigger] entries@[j]).0@ == spec_item_key(
                    org@,
                    repo@,
                    cat,
                    st,
                    nums@[j],
                ),
        decreases n_entries - idx,
    {
        let num = match cat {
            Category::Issue => {
                match decode_issue(&entries[idx].1) {
                    Option::Some(o) => o.issue_number as u64,
                    Option::None => {
                        return Err(ReconcileError::Encoding);
                    },
                }
            },
            Category::PullRequest => {
                match decode_pr(&entries[idx].1) {
                    Option::Some(o) => o.pr_number,
                    Option::None => {
                        return Err(ReconcileError::Encoding);
                    },
                }
            },
        };
        let expected = item_key(org, repo, cat, st, num);
        if !bytes_eq(&entries[idx].0, &expected) {
            return Err(ReconcileError::Encoding);
        }
        nums.push(num);
        idx += 1;
    }
    proof {
        assert forall|n: u64|
            nums@.contains(n) <==> store@.contains_key(
                #[trigger] spec_item_key(org@, repo@, cat, st, n),
            ) by {
            if nums@.contains(n) {
                let j = choose|j: int| 0 <= j < nums@.len() && nums@[j] == n;
                assert(store@.contains_key(entries@[j].0@));
            }
            if store@.contains_key(spec_item_key(org@, repo@, cat, st, n)) {
                let k = spec_item_key(org@, repo@, cat, st, n);
                let j = choose|j: int| 0 <= j < entries@.len() && entries@[j].0@ == k;
                assert(nums@[j] == n);
            }
        }
        assert forall|t1: int, t2: int| 0 <= t1 < t2 < nums@.len() implies nums@[t1]
            != nums@[t2] by {
            assert(entries@[t1].0@ != entries@[t2].0@);
        }
    }
    Ok(nums)
}

} // verus!
