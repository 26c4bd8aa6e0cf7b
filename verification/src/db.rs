use vstd::prelude::*;

use crate::byteseq::{dec_digits, u64_to_dec};
use crate::codec::{encode_issue, encode_pr, spec_encode_issue, spec_encode_pr};
use crate::store::{apply_op, apply_ops, BatchOp, Store};
use crate::types::{Issue, PullRequest, ReconcileError};

verus! {

/// The key one record is archived under: a caller-chosen prefix, the
/// separator, and the item's number in decimal.
pub open spec fn spec_db_key(prefix: Seq<u8>, n: u64) -> Seq<u8> {
    prefix + seq![0x23u8] + dec_digits(n as nat)
}

fn db_key(key_prefix: &Vec<u8>, n: u64) -> (r: Vec<u8>)
    ensures
        r@ == spec_db_key(key_prefix@, n),
{
    let mut out: Vec<u8> = Vec::new();
    let mut i: usize = 0;
    let len = key_prefix.len();
    while i < len
        invariant
            i <= len,
            len == key_prefix@.len(),
            out@ == key_prefix@.subrange(0, i as int),
        decreases len - i,
    {
        out.push(key_prefix[i]);
        i += 1;
        proof {
            assert(out@ =~= key_prefix@.subrange(0, i as int));
        }
    }
    out.push(0x23);
    let mut digits = u64_to_dec(n);
    out.append(&mut digits);
    proof {
        assert(out@ =~= spec_db_key(key_prefix@, n));
    }
    out
}

/// Archives one issue record under the given prefix and its number,
/// overwriting any record already there.
pub fn insert_one_issue(store: &mut Store, key_prefix: &Vec<u8>, issue: &Issue) -> (r: Result<
    (),
    ReconcileError,
>)
    ensures
        r is Ok ==> final(store)@ == old(store)@.insert(
            spec_db_key(key_prefix@, issue.issue_number as u64),
            spec_encode_issue(*issue),
        ),
        r is Err ==> final(store)@ == old(store)@ && r == Err::<(), ReconcileError>(
            ReconcileError::Store,
        ),
{
    let k = db_key(key_prefix, issue.issue_number as u64);
    let v = encode_issue(issue);
    let mut ops: Vec<BatchOp> = Vec::new();
    ops.push(BatchOp::Put(k, v));
    match store.apply_batch(&ops) {
        Result::Ok(_) => {
            proof {
                assert(ops@.subrange(1, 1) =~= Seq::<BatchOp>::empty());
                assert(apply_ops(old(store)@, ops@) == apply_ops(
                    apply_op(old(store)@, ops@[0]),
                    ops@.subrange(1, 1),
                ));
            }
            Ok(())
        },
        Result::Err(_) => Err(ReconcileError::Store),
    }
}

/// Archives one pull-request record under the given prefix and its number,
/// overwriting any record already there.
pub fn insert_one_pr(store: &mut Store, key_prefix: &Vec<u8>, pr: &PullRequest) -> (r: Result<
    (),
    ReconcileError,
>)
    ensures
        r is Ok ==> final(store)@ == old(store)@.insert(
            spec_db_key(key_prefix@, pr.pr_number),
            spec_encode_pr(*pr),
        ),
        r is Err ==> final(store)@ == old(store)@ && r == Err::<(), ReconcileError>(
            ReconcileError::Store,
        ),
{
    let k = db_key(key_prefix, pr.pr_number);
    let v = encode_pr(pr);
    let mut ops: Vec<BatchOp> = Vec::new();
    ops.push(BatchOp::Put(k, v));
    match store.apply_batch(&ops) {
        Result::Ok(_) => {
            proof {
                assert(ops@.subrange(1, 1) =~= Seq::<BatchOp>::empty());
                assert(apply_ops(old(store)@, ops@) == apply_ops(
                    apply_op(old(store)@, ops@[0]),
                    ops@.subrange(1, 1),
                ));
            }
            Ok(())
        },
        Result::Err(_) => Err(ReconcileError::Store),
    }
}

/// What the archive holds after a batch of issue puts, applied in order.
pub open spec fn issue_batch_applied(
    m: Map<Seq<u8>, Seq<u8>>,
    prefix: Seq<u8>,
    items: Seq<Issue>,
) -> Map<Seq<u8>, Seq<u8>>
    decreases items.len(),
{
    if items.len() == 0 {
        m
    } else {
        issue_batch_applied(
            m.insert(
                spec_db_key(prefix, items[0].issue_number as u64),
                spec_encode_issue(items[0]),
            ),
            prefix,
            items.subrange(1, items.len() as int),
        )
    }
}

/// What the archive holds after a batch of pull-request puts.
pub open spec fn pr_batch_applied(
    m: Map<Seq<u8>, Seq<u8>>,
    prefix: Seq<u8>,
    items: Seq<PullRequest>,
) -> Map<Seq<u8>, Seq<u8>>
    decreases items.len(),
{
    if items.len() == 0 {
        m
    } else {
        pr_batch_applied(
            m.insert(spec_db_key(prefix, items[0].pr_number), spec_encode_pr(items[0])),
            prefix,
            items.subrange(1, items.len() as int),
        )
    }
}

proof fn lemma_issue_batch(
    m: Map<Seq<u8>, Seq<u8>>,
    prefix: Seq<u8>,
    items: Seq<Issue>,
    ops: Seq<BatchOp>,
)
    requires
        ops.len() == items.len(),
        forall|t: int|
            0 <= t < items.len() ==> (#[trigger] ops[t] matches BatchOp::Put(k, v) && k@
                == spec_db_key(prefix, items[t].issue_number as u64) && v@ == spec_encode_issue(
                items[t],
            )),
    ensures
        apply_ops(m, ops) == issue_batch_applied(m, prefix, items),
    decreases items.len(),
{
    if items.len() > 0 {
        let rest = items.subrange(1, items.len() as int);
        let ops_rest = ops.subrange(1, ops.len() as int);
        assert forall|t: int|
            0 <= t < rest.len() implies (#[trigger] ops_rest[t] matches BatchOp::Put(k, v) && k@
            == spec_db_key(prefix, rest[t].issue_number as u64) && v@ == spec_encode_issue(
            rest[t],
        )) by {
            assert(ops_rest[t] == ops[t + 1]);
            assert(rest[t] == items[t + 1]);
        }
        let m1 = m.insert(
            spec_db_key(prefix, items[0].issue_number as u64),
            spec_encode_issue(items[0]),
        );
        assert(apply_op(m, ops[0]) == m1);
        lemma_issue_batch(m1, prefix, rest, ops_rest);
    }
}

proof fn lemma_pr_batch(
    m: Map<Seq<u8>, Seq<u8>>,
    prefix: Seq<u8>,
    items: Seq<PullRequest>,
    ops: Seq<BatchOp>,
)
    requires
        ops.len() == items.len(),
        forall|t: int|
            0 <= t < items.len() ==> (#[trigger] ops[t] matches BatchOp::Put(k, v) && k@
                == spec_db_key(prefix, items[t].pr_number) && v@ == spec_encode_pr(items[t])),
    ensures
        apply_ops(m, ops) == pr_batch_applied(m, prefix, items),
    decreases items.len(),
{
    if items.len() > 0 {
        let rest = items.subrange(1, items.len() as int);
        let ops_rest = ops.subrange(1, ops.len() as int);
        assert forall|t: int|
            0 <= t < rest.len() implies (#[trigger] ops_rest[t] matches BatchOp::Put(k, v) && k@
            == spec_db_key(prefix, rest[t].pr_number) && v@ == spec_encode_pr(rest[t])) by {
            assert(ops_rest[t] == ops[t + 1]);
            assert(rest[t] == items[t + 1]);
        }
        let m1 = m.insert(spec_db_key(prefix, items[0].pr_number), spec_encode_pr(items[0]));
        assert(apply_op(m, ops[0]) == m1);
        lemma_pr_batch(m1, prefix, rest, ops_rest);
    }
}

/// Archives a batch of issue records in one atomic write; on failure nothing
/// is written.
#[verifier::loop_isolation(false)]
pub fn insert_batch_issues(
    store: &mut Store,
    key_prefix: &Vec<u8>,
    new_issues: &Vec<Issue>,
) -> (r: Result<(), ReconcileError>)
    ensures
        r is Ok ==> final(store)@ == issue_batch_applied(old(store)@, key_prefix@, new_issues@),
        r is Err ==> final(store)@ == old(store)@ && r == Err::<(), ReconcileError>(
            ReconcileError::Store,
        ),
{
    let mut ops: Vec<BatchOp> = Vec::new();
    let len = new_issues.len();
    let mut j: usize = 0;
    while j < len
        invariant
            j <= len,
            ops@.len() == j,
            forall|t: int|
                0 <= t < j ==> (#[trigger] ops@[t] matches BatchOp::Put(k, v) && k@ == spec_db_key(
                    key_prefix@,
                    new_issues@[t].issue_number as u64,
                ) && v@ == spec_encode_issue(new_issues@[t])),
        decreases len - j,
    {
        let k = db_key(key_prefix, new_issues[j].issue_number as u64);
        let v = encode_issue(&new_issues[j]);
        ops.push(BatchOp::Put(k, v));
        j += 1;
    }
    match store.apply_batch(&ops) {
        Result::Ok(_) => {
            proof {
                lemma_issue_batch(old(store)@, key_prefix@, new_issues@, ops@);
            }
            Ok(())
        },
        Result::Err(_) => Err(ReconcileError::Store),
    }
}

/// Archives a batch of pull-request records in one atomic write; on failure
/// nothing is written.
#[verifier::loop_isolation(false)]
pub fn insert_batch_prs(store: &mut Store, key_prefix: &Vec<u8>, new_prs: &Vec<PullRequest>) -> (r:
    Result<(), ReconcileError>)
    ensures
        r is Ok ==> final(store)@ == pr_batch_applied(old(store)@, key_prefix@, new_prs@),
        r is Err ==> final(store)@ == old(store)@ && r == Err::<(), ReconcileError>(
            ReconcileError::Store,
        ),
{
    let mut ops: Vec<BatchOp> = Vec::new();
    let len = new_prs.len();
    let mut j: usize = 0;
    while j < len
        invariant
            j <= len,
            ops@.len() == j,
            forall|t: int|
                0 <= t < j ==> (#[trigger] ops@[t] matches BatchOp::Put(k, v) && k@ == spec_db_key(
                    key_prefix@,
                    new_prs@[t].pr_number,
                ) && v@ == spec_encode_pr(new_prs@[t])),
        decreases len - j,
    {
        let k = db_key(key_prefix, new_prs[j].pr_number);
        let v = encode_pr(&new_prs[j]);
        ops.push(BatchOp::Put(k, v));
        j += 1;
    }
    match store.apply_batch(&ops) {
        Result::Ok(_) => {
            proof {
                lemma_pr_batch(old(store)@, key_prefix@, new_prs@, ops@);
            }
            Ok(())
        },
        Result::Err(_) => Err(ReconcileError::Store),
    }
}

} // verus!
