use vstd::prelude::*;

use crate::byteseq::{dec_digits, lemma_dec_digits_injective, starts_with, u64_to_dec};
use crate::types::{Category, Status};

verus! {

/// The separator between the components of a persisted key.
pub open spec fn hash_seg() -> Seq<u8> {
    seq![0x23u8]
}

/// The key segment naming an item's category: `issues` or `prs`.
pub open spec fn category_segment(cat: Category) -> Seq<u8> {
    match cat {
        Category::Issue => seq![0x69u8, 0x73u8, 0x73u8, 0x75u8, 0x65u8, 0x73u8],
        Category::PullRequest => seq![0x70u8, 0x72u8, 0x73u8],
    }
}

/// The key segment naming a status bucket: `open`, `closed` or `merged`.
pub open spec fn status_segment(st: Status) -> Seq<u8> {
    match st {
        Status::Open => seq![0x6fu8, 0x70u8, 0x65u8, 0x6eu8],
        Status::Closed => seq![0x63u8, 0x6cu8, 0x6fu8, 0x73u8, 0x65u8, 0x64u8],
        Status::Merged => seq![0x6du8, 0x65u8, 0x72u8, 0x67u8, 0x65u8, 0x64u8],
    }
}

/// The common prefix of every key of one status bucket:
/// `organization#repository#category#status`.
pub open spec fn spec_bucket_prefix(org: Seq<u8>, repo: Seq<u8>, cat: Category, st: Status) -> Seq<
    u8,
> {
    org + hash_seg() + repo + hash_seg() + category_segment(cat) + hash_seg() + status_segment(st)
}

/// The key of one item in one status bucket:
/// `organization#repository#category#status#number`.
pub open spec fn spec_item_key(
    org: Seq<u8>,
    repo: Seq<u8>,
    cat: Category,
    st: Status,
    n: u64,
) -> Seq<u8> {
    spec_bucket_prefix(org, repo, cat, st) + hash_seg() + dec_digits(n as nat)
}

fn append_bytes(out: &mut Vec<u8>, b: &Vec<u8>)
    ensures
        final(out)@ == old(out)@ + b@,
{
    let mut i: usize = 0;
    while i < b.len()
        invariant
            i <= b@.len(),
            out@ == old(out)@ + b@.subrange(0, i as int),
        decreases b@.len() - i,
    {
        out.push(b[i]);
        i += 1;
        proof {
            assert(out@ =~= old(out)@ + b@.subrange(0, i as int));
        }
    }
    proof {
        assert(out@ =~= old(out)@ + b@);
    }
}

fn append_category(out: &mut Vec<u8>, cat: Category)
    ensures
        final(out)@ == old(out)@ + category_segment(cat),
{
    match cat {
        Category::Issue => {
            out.push(0x69);
            out.push(0x73);
            out.push(0x73);
            out.push(0x75);
            out.push(0x65);
            out.push(0x73);
        },
        Category::PullRequest => {
            out.push(0x70);
            out.push(0x72);
            out.push(0x73);
        },
    }
    proof {
        assert(out@ =~= old(out)@ + category_segment(cat));
    }
}

fn append_status(out: &mut Vec<u8>, st: Status)
    ensures
        final(out)@ == old(out)@ + status_segment(st),
{
    match st {
        Status::Open => {
            out.push(0x6f);
            out.push(0x70);
            out.push(0x65);
            out.push(0x6e);
        },
        Status::Closed => {
            out.push(0x63);
            out.push(0x6c);
            out.push(0x6f);
            out.push(0x73);
            out.push(0x65);
            out.push(0x64);
        },
        Status::Merged => {
            out.push(0x6d);
            out.push(0x65);
            out.push(0x72);
            out.push(0x67);
            out.push(0x65);
            out.push(0x64);
        },
    }
    proof {
        assert(out@ =~= old(out)@ + status_segment(st));
    }
}

/// Builds the scan prefix of one status bucket.
pub fn bucket_prefix(org: &Vec<u8>, repo: &Vec<u8>, cat: Category, st: Status) -> (r: Vec<u8>)
    ensures
        r@ == spec_bucket_prefix(org@, repo@, cat, st),
{
    let mut out: Vec<u8> = Vec::new();
    append_bytes(&mut out, org);
    out.push(0x23);
    append_bytes(&mut out, repo);
    out.push(0x23);
    append_category(&mut out, cat);
    out.push(0x23);
    append_status(&mut out, st);
    proof {
        assert(out@ =~= spec_bucket_prefix(org@, repo@, cat, st));
    }
    out
}

/// Builds the key of one item in one status bucket.
pub fn item_key(org: &Vec<u8>, repo: &Vec<u8>, cat: Category, st: Status, n: u64) -> (r: Vec<u8>)
    ensures
        r@ == spec_item_key(org@, repo@, cat, st, n),
{
    let mut out = bucket_prefix(org, repo, cat, st);
    out.push(0x23);
    let digits = u64_to_dec(n);
    append_bytes(&mut out, &digits);
    proof {
        assert(out@ =~= spec_item_key(org@, repo@, cat, st, n));
    }
    out
}

/// An item key lies under its own bucket's scan prefix.
pub proof fn lemma_key_in_own_bucket(org: Seq<u8>, repo: Seq<u8>, cat: Category, st: Status, n: u64)
    ensures
        starts_with(spec_item_key(org, repo, cat, st, n), spec_bucket_prefix(org, repo, cat, st)),
{
    let key = spec_item_key(org, repo, cat, st, n);
    let pre = spec_bucket_prefix(org, repo, cat, st);
    assert(key.subrange(0, pre.len() as int) =~= pre);
}

/// An item key of one bucket never lies under the scan prefix of a different
/// bucket of the same repository and category: the bucket names differ in
/// their first byte.
pub proof fn lemma_key_not_in_other_bucket(
    org: Seq<u8>,
    repo: Seq<u8>,
    cat: Category,
    st_bucket: Status,
    st_key: Status,
    n: u64,
)
    requires
        st_bucket != st_key,
    ensures
        !starts_with(
            spec_item_key(org, repo, cat, st_key, n),
            spec_bucket_prefix(org, repo, cat, st_bucket),
        ),
{
    let key = spec_item_key(org, repo, cat, st_key, n);
    let pre = spec_bucket_prefix(org, repo, cat, st_bucket);
    let p = org.len() + 1 + repo.len() + 1 + category_segment(cat).len() + 1;
    assert(pre[p as int] == status_segment(st_bucket)[0]);
    assert(key[p as int] == status_segment(st_key)[0]);
    assert(status_segment(st_bucket)[0] != status_segment(st_key)[0]);
    if starts_with(key, pre) {
        assert(key.subrange(0, pre.len() as int)[p as int] == key[p as int]);
    }
}

/// An item key of one category never lies under a scan prefix of the other
/// category: the category names differ in their first byte.
pub proof fn lemma_key_not_in_other_category(
    org: Seq<u8>,
    repo: Seq<u8>,
    cat_bucket: Category,
    st_bucket: Status,
    cat_key: Category,
    st_key: Status,
    n: u64,
)
    requires
        cat_bucket != cat_key,
    ensures
        !starts_with(
            spec_item_key(org, repo, cat_key, st_key, n),
            spec_bucket_prefix(org, repo, cat_bucket, st_bucket),
        ),
{
    let key = spec_item_key(org, repo, cat_key, st_key, n);
    let pre = spec_bucket_prefix(org, repo, cat_bucket, st_bucket);
    let q = org.len() + 1 + repo.len() + 1;
    assert(pre[q as int] == category_segment(cat_bucket)[0]);
    assert(key[q as int] == category_segment(cat_key)[0]);
    assert(category_segment(cat_bucket)[0] != category_segment(cat_key)[0]);
    if starts_with(key, pre) {
        assert(key.subrange(0, pre.len() as int)[q as int] == key[q as int]);
    }
}

/// Two item keys of the same repository agree on category, bucket and number
/// as soon as they are equal as byte sequences.
pub proof fn lemma_item_key_injective(
    org: Seq<u8>,
    repo: Seq<u8>,
    c1: Category,
    s1: Status,
    n1: u64,
    c2: Category,
    s2: Status,
    n2: u64,
)
    requires
        spec_item_key(org, repo, c1, s1, n1) == spec_item_key(org, repo, c2, s2, n2),
    ensures
        c1 == c2,
        s1 == s2,
        n1 == n2,
{
    let k1 = spec_item_key(org, repo, c1, s1, n1);
    let k2 = spec_item_key(org, repo, c2, s2, n2);
    let q = org.len() + 1 + repo.len() + 1;
    assert(k1[q as int] == category_segment(c1)[0]);
    assert(k2[q as int] == category_segment(c2)[0]);
    if c1 != c2 {
        assert(category_segment(c1)[0] != category_segment(c2)[0]);
    }
    assert(c1 == c2);
    let p = q + category_segment(c1).len() + 1;
    assert(k1[p as int] == status_segment(s1)[0]);
    assert(k2[p as int] == status_segment(s2)[0]);
    if s1 != s2 {
        assert(status_segment(s1)[0] != status_segment(s2)[0]);
    }
    assert(s1 == s2);
    let pre = spec_bucket_prefix(org, repo, c1, s1) + hash_seg();
    assert(dec_digits(n1 as nat) =~= k1.subrange(pre.len() as int, k1.len() as int));
    assert(dec_digits(n2 as nat) =~= k2.subrange(pre.len() as int, k2.len() as int));
    lemma_dec_digits_injective(n1 as nat, n2 as nat);
}

} // verus!
