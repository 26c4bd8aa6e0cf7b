use vstd::prelude::*;

use vstd::bytes::{
    lemma_auto_spec_u64_to_from_le_bytes, spec_u64_to_le_bytes, u64_from_le_bytes, u64_to_le_bytes,
};
use vstd::slice::slice_subrange;

use crate::types::{Issue, PullRequest, Status};

verus! {

// Persisted records are encoded by the library itself, so that a record
// written by one run is exactly reconstructible by a later run. Every field
// is a tagged little-endian number of fixed width or a length-prefixed byte
// string, and every field has exactly one accepted encoding, so a record has
// exactly one encoding and the decoder can insist on it.

/// A signed timestamp: a sign byte (1 for non-negative, 0 for negative)
/// followed by a biased magnitude, so that every `i64` is representable.
pub open spec fn spec_enc_i64(x: i64) -> Seq<u8> {
    if x >= 0 {
        seq![1u8] + spec_u64_to_le_bytes(x as u64)
    } else {
        seq![0u8] + spec_u64_to_le_bytes((-1 - x) as u64)
    }
}

/// An optional timestamp, at a fixed width of ten bytes: a presence byte,
/// then the timestamp, which is zero when absent.
pub open spec fn spec_enc_opt_i64(o: Option<i64>) -> Seq<u8> {
    match o {
        Option::None => seq![0u8] + spec_enc_i64(0),
        Option::Some(x) => seq![1u8] + spec_enc_i64(x),
    }
}

/// A byte string: its length, then its bytes.
pub open spec fn spec_enc_bytes(b: Seq<u8>) -> Seq<u8> {
    spec_u64_to_le_bytes(b.len() as u64) + b
}

/// An optional byte string: a presence byte, then a byte string, which is
/// empty when absent.
pub open spec fn spec_enc_opt_bytes(o: Option<Vec<u8>>) -> Seq<u8> {
    match o {
        Option::None => seq![0u8] + spec_enc_bytes(Seq::empty()),
        Option::Some(b) => seq![1u8] + spec_enc_bytes(b@),
    }
}

pub open spec fn status_code(st: Status) -> u8 {
    match st {
        Status::Open => 0u8,
        Status::Closed => 1u8,
        Status::Merged => 2u8,
    }
}

pub open spec fn spec_enc_status(st: Status) -> Seq<u8> {
    seq![status_code(st)]
}

/// An optional status, at a fixed width of two bytes.
pub open spec fn spec_enc_opt_status(o: Option<Status>) -> Seq<u8> {
    match o {
        Option::None => seq![0u8, 0u8],
        Option::Some(st) => seq![1u8, status_code(st)],
    }
}

/// The persisted encoding of an issue record.
pub open spec fn spec_encode_issue(i: Issue) -> Seq<u8> {
    spec_u64_to_le_bytes(i.issue_number as u64) + spec_enc_status(i.status) + spec_enc_i64(
        i.created_at,
    ) + spec_enc_i64(i.updated_at) + spec_enc_opt_i64(i.closed_at) + spec_enc_bytes(i.title@)
        + spec_enc_opt_bytes(i.body) + spec_enc_bytes(i.url@)
}

/// The persisted encoding of a pull-request record.
pub open spec fn spec_encode_pr(p: PullRequest) -> Seq<u8> {
    spec_u64_to_le_bytes(p.pr_number) + spec_enc_opt_status(p.status) + spec_enc_opt_i64(
        p.created_at,
    ) + spec_enc_opt_i64(p.updated_at) + spec_enc_opt_i64(p.merged_at) + spec_enc_opt_i64(
        p.closed_at,
    ) + spec_enc_opt_bytes(p.title) + spec_enc_opt_bytes(p.body) + spec_enc_opt_bytes(p.url)
}

/// Records with the same encoding carry the same item number.
pub proof fn lemma_issue_number_of_enc(a: Issue, b: Issue)
    requires
        spec_encode_issue(a) == spec_encode_issue(b),
    ensures
        a.issue_number == b.issue_number,
{
    lemma_auto_spec_u64_to_from_le_bytes();
    let ea = spec_encode_issue(a);
    let eb = spec_encode_issue(b);
    assert(ea.subrange(0, 8) =~= spec_u64_to_le_bytes(a.issue_number as u64));
    assert(eb.subrange(0, 8) =~= spec_u64_to_le_bytes(b.issue_number as u64));
}

/// Records with the same encoding carry the same item number.
pub proof fn lemma_pr_number_of_enc(a: PullRequest, b: PullRequest)
    requires
        spec_encode_pr(a) == spec_encode_pr(b),
    ensures
        a.pr_number == b.pr_number,
{
    lemma_auto_spec_u64_to_from_le_bytes();
    let ea = spec_encode_pr(a);
    let eb = spec_encode_pr(b);
    assert(ea.subrange(0, 8) =~= spec_u64_to_le_bytes(a.pr_number));
    assert(eb.subrange(0, 8) =~= spec_u64_to_le_bytes(b.pr_number));
}

fn write_u64(out: &mut Vec<u8>, x: u64)
    ensures
        final(out)@ == old(out)@ + spec_u64_to_le_bytes(x),
{
    let mut b = u64_to_le_bytes(x);
    out.append(&mut b);
}

fn write_i64(out: &mut Vec<u8>, x: i64)
    ensures
        final(out)@ == old(out)@ + spec_enc_i64(x),
{
    if x >= 0 {
        out.push(1);
        write_u64(out, x as u64);
        assert(out@ =~= old(out)@ + spec_enc_i64(x));
    } else {
        out.push(0);
        let mag = -1 - x;
        write_u64(out, mag as u64);
        assert(out@ =~= old(out)@ + spec_enc_i64(x));
    }
}

fn write_opt_i64(out: &mut Vec<u8>, o: &Option<i64>)
    ensures
        final(out)@ == old(out)@ + spec_enc_opt_i64(*o),
{
    match o {
        Option::None => {
            out.push(0);
            write_i64(out, 0);
            assert(out@ =~= old(out)@ + spec_enc_opt_i64(*o));
        },
        Option::Some(x) => {
            out.push(1);
            write_i64(out, *x);
            assert(out@ =~= old(out)@ + spec_enc_opt_i64(*o));
        },
    }
}

fn write_bytes(out: &mut Vec<u8>, b: &Vec<u8>)
    ensures
        final(out)@ == old(out)@ + spec_enc_bytes(b@),
{
    write_u64(out, b.len() as u64);
    let ghost mid = out@;
    let mut i: usize = 0;
    while i < b.len()
        invariant
            i <= b@.len(),
            out@ == mid + b@.subrange(0, i as int),
        decreases b@.len() - i,
    {
        out.push(b[i]);
        i += 1;
        proof {
            assert(out@ =~= mid + b@.subrange(0, i as int));
        }
    }
    proof {
        assert(b@.subrange(0, b@.len() as int) =~= b@);
        assert(out@ =~= old(out)@ + spec_enc_bytes(b@));
    }
}

fn write_opt_bytes(out: &mut Vec<u8>, o: &Option<Vec<u8>>)
    ensures
        final(out)@ == old(out)@ + spec_enc_opt_bytes(*o),
{
    match o {
        Option::None => {
            out.push(0);
            write_u64(out, 0);
            proof {
                assert(spec_enc_bytes(Seq::empty()) =~= spec_u64_to_le_bytes(0));
                assert(out@ =~= old(out)@ + spec_enc_opt_bytes(*o));
            }
        },
        Option::Some(b) => {
            out.push(1);
            write_bytes(out, b);
            assert(out@ =~= old(out)@ + spec_enc_opt_bytes(*o));
        },
    }
}

fn write_status(out: &mut Vec<u8>, st: Status)
    ensures
        final(out)@ == old(out)@ + spec_enc_status(st),
{
    match st {
        Status::Open => out.push(0),
        Status::Closed => out.push(1),
        Status::Merged => out.push(2),
    }
    assert(out@ =~= old(out)@ + spec_enc_status(st));
}

fn write_opt_status(out: &mut Vec<u8>, o: &Option<Status>)
    ensures
        final(out)@ == old(out)@ + spec_enc_opt_status(*o),
{
    match o {
        Option::None => {
            out.push(0);
            out.push(0);
            assert(out@ =~= old(out)@ + spec_enc_opt_status(*o));
        },
        Option::Some(st) => {
            out.push(1);
            write_status(out, *st);
            assert(out@ =~= old(out)@ + spec_enc_opt_status(*o));
        },
    }
}

/// Encodes an issue record for persistence.
pub fn encode_issue(i: &Issue) -> (r: Vec<u8>)
    ensures
        r@ == spec_encode_issue(*i),
{
    let mut out: Vec<u8> = Vec::new();
    write_u64(&mut out, i.issue_number as u64);
    write_status(&mut out, i.status);
    write_i64(&mut out, i.created_at);
    write_i64(&mut out, i.updated_at);
    write_opt_i64(&mut out, &i.closed_at);
    write_bytes(&mut out, &i.title);
    write_opt_bytes(&mut out, &i.body);
    write_bytes(&mut out, &i.url);
    proof {
        assert(out@ =~= spec_encode_issue(*i));
    }
    out
}

/// Encodes a pull-request record for persistence.
pub fn encode_pr(p: &PullRequest) -> (r: Vec<u8>)
    ensures
        r@ == spec_encode_pr(*p),
{
    let mut out: Vec<u8> = Vec::new();
    write_u64(&mut out, p.pr_number);
    write_opt_status(&mut out, &p.status);
    write_opt_i64(&mut out, &p.created_at);
    write_opt_i64(&mut out, &p.updated_at);
    write_opt_i64(&mut out, &p.merged_at);
    write_opt_i64(&mut out, &p.closed_at);
    write_opt_bytes(&mut out, &p.title);
    write_opt_bytes(&mut out, &p.body);
    write_opt_bytes(&mut out, &p.url);
    proof {
        assert(out@ =~= spec_encode_pr(*p));
    }
    out
}

fn read_u64(buf: &Vec<u8>, pos: &mut usize) -> (r: Option<u64>)
    ensures
        r matches Some(x) ==> *old(pos) + 8 <= buf@.len() && *final(pos) == *old(pos) + 8 && buf@.subrange(
            *old(pos) as int,
            *final(pos) as int,
        ) == spec_u64_to_le_bytes(x),
        r is None ==> *final(pos) == *old(pos) && *old(pos) + 8 > buf@.len(),
{
    if *pos > buf.len() || buf.len() - *pos < 8 {
        return None;
    }
    let s = slice_subrange(buf.as_slice(), *pos, *pos + 8);
    let x = u64_from_le_bytes(s);
    proof {
        lemma_auto_spec_u64_to_from_le_bytes();
    }
    *pos = *pos + 8;
    Some(x)
}

fn read_byte(buf: &Vec<u8>, pos: &mut usize) -> (r: Option<u8>)
    ensures
        r matches Some(x) ==> *old(pos) + 1 <= buf@.len() && *final(pos) == *old(pos) + 1
            && buf@[*old(pos) as int] == x,
        r is None ==> *final(pos) == *old(pos) && *old(pos) + 1 > buf@.len(),
{
    if *pos >= buf.len() {
        return None;
    }
    let x = buf[*pos];
    *pos = *pos + 1;
    Some(x)
}

fn read_i64(buf: &Vec<u8>, pos: &mut usize) -> (r: Option<i64>)
    ensures
        r matches Some(x) ==> *old(pos) + 9 <= buf@.len() && *final(pos) == *old(pos) + 9 && buf@.subrange(
            *old(pos) as int,
            *final(pos) as int,
        ) == spec_enc_i64(x),
        r is None ==> *final(pos) == *old(pos) && (forall|x: i64|
            !(*old(pos) + 9 <= buf@.len() && buf@.subrange(
                *old(pos) as int,
                *old(pos) as int + 9,
            ) == spec_enc_i64(x))),
{
    let start = *pos;
    let tag = match read_byte(buf, pos) {
        Option::Some(t) => t,
        Option::None => {
            return None;
        },
    };
    let mag = match read_u64(buf, pos) {
        Option::Some(m) => m,
        Option::None => {
            *pos = start;
            return None;
        },
    };
    if tag > 1 || mag > 0x7fff_ffff_ffff_ffff {
        *pos = start;
        proof {
            lemma_auto_spec_u64_to_from_le_bytes();
            assert forall|x: i64|
                !(start + 9 <= buf@.len() && buf@.subrange(start as int, start as int + 9)
                    == spec_enc_i64(x)) by {
                if start + 9 <= buf@.len() && buf@.subrange(start as int, start as int + 9)
                    == spec_enc_i64(x) {
                    let sub = buf@.subrange(start as int, start as int + 9);
                    assert(sub[0] == buf@[start as int]);
                    assert(sub.subrange(1, 9) =~= buf@.subrange(start as int + 1, start as int + 9));
                    if x >= 0 {
                        assert(sub[0] == 1u8);
                        assert(sub.subrange(1, 9) =~= spec_u64_to_le_bytes(x as u64));
                        assert(mag == x as u64);
                    } else {
                        assert(sub[0] == 0u8);
                        assert(sub.subrange(1, 9) =~= spec_u64_to_le_bytes((-1 - x) as u64));
                        assert(mag == (-1 - x) as u64);
                    }
                }
            }
        }
        return None;
    }
    let x: i64 = if tag == 1 {
        mag as i64
    } else {
        -1 - (mag as i64)
    };
    proof {
        assert(buf@.subrange(start as int, *pos as int) =~= seq![buf@[start as int]]
            + buf@.subrange(start as int + 1, *pos as int));
        if tag == 1 {
            assert(x >= 0 && x as u64 == mag);
        } else {
            assert(x < 0 && (-1 - x) as u64 == mag);
        }
        assert(buf@.subrange(start as int, *pos as int) == spec_enc_i64(x));
    }
    Some(x)
}

fn read_opt_i64(buf: &Vec<u8>, pos: &mut usize) -> (r: Option<Option<i64>>)
    ensures
        r matches Some(o) ==> *old(pos) + 10 <= buf@.len() && *final(pos) == *old(pos) + 10
            && buf@.subrange(*old(pos) as int, *final(pos) as int) == spec_enc_opt_i64(o),
        r is None ==> *final(pos) == *old(pos) && (forall|o: Option<i64>|
            !(*old(pos) + 10 <= buf@.len() && buf@.subrange(
                *old(pos) as int,
                *old(pos) as int + 10,
            ) == spec_enc_opt_i64(o))),
{
    let start = *pos;
    let tag = match read_byte(buf, pos) {
        Option::Some(t) => t,
        Option::None => {
            return None;
        },
    };
    let x = match read_i64(buf, pos) {
        Option::Some(x) => x,
        Option::None => {
            *pos = start;
            proof {
                assert forall|o: Option<i64>|
                    !(start + 10 <= buf@.len() && buf@.subrange(start as int, start as int + 10)
                        == spec_enc_opt_i64(o)) by {
                    if start + 10 <= buf@.len() && buf@.subrange(start as int, start as int + 10)
                        == spec_enc_opt_i64(o) {
                        lemma_auto_spec_u64_to_from_le_bytes();
                        let sub = buf@.subrange(start as int, start as int + 10);
                        let inner = match o {
                            Option::None => 0i64,
                            Option::Some(x0) => x0,
                        };
                        assert(spec_enc_i64(inner).len() == 9);
                        assert(sub =~= seq![sub[0]] + spec_enc_i64(inner));
                        let tail = buf@.subrange(start as int + 1, start as int + 10);
                        assert(tail.len() == 9);
                        assert forall|j: int| 0 <= j < 9 implies tail[j] == spec_enc_i64(inner)[j] by {
                            assert(tail[j] == buf@[start as int + 1 + j]);
                            assert(sub[j + 1] == (seq![sub[0]] + spec_enc_i64(inner))[j + 1]);
                            assert(sub[j + 1] == buf@[start as int + 1 + j]);
                        }
                        assert(tail =~= spec_enc_i64(inner));
                    }
                }
            }
            return None;
        },
    };
    if tag > 1 || (tag == 0 && x != 0) {
        *pos = start;
        proof {
            assert forall|o: Option<i64>|
                !(start + 10 <= buf@.len() && buf@.subrange(start as int, start as int + 10)
                    == spec_enc_opt_i64(o)) by {
                if start + 10 <= buf@.len() && buf@.subrange(start as int, start as int + 10)
                    == spec_enc_opt_i64(o) {
                    let sub = buf@.subrange(start as int, start as int + 10);
                    assert(sub[0] == buf@[start as int]);
                    assert(sub.subrange(1, 10) =~= buf@.subrange(
                        start as int + 1,
                        start as int + 10,
                    ));
                    match o {
                        Option::None => {
                            assert(sub[0] == 0u8);
                            assert(sub.subrange(1, 10) == spec_enc_i64(0));
                            assert(x == 0) by {
                                lemma_enc_i64_injective(x, 0);
                            }
                        },
                        Option::Some(x0) => {
                            assert(sub[0] == 1u8);
                        },
                    }
                }
            }
        }
        return None;
    }
    let o: Option<i64> = if tag == 0 {
        None
    } else {
        Some(x)
    };
    proof {
        assert(buf@.subrange(start as int, *pos as int) =~= seq![buf@[start as int]]
            + buf@.subrange(start as int + 1, *pos as int));
        assert(buf@.subrange(start as int, *pos as int) == spec_enc_opt_i64(o));
    }
    Some(o)
}

/// Each `i64` has exactly one encoding.
proof fn lemma_enc_i64_injective(a: i64, b: i64)
    requires
        spec_enc_i64(a) == spec_enc_i64(b),
    ensures
        a == b,
{
    lemma_auto_spec_u64_to_from_le_bytes();
    let ea = spec_enc_i64(a);
    let eb = spec_enc_i64(b);
    assert(ea[0] == eb[0]);
    if a >= 0 {
        assert(ea[0] == 1u8);
        assert(b >= 0);
        assert(ea.subrange(1, 9) =~= spec_u64_to_le_bytes(a as u64));
        assert(eb.subrange(1, 9) =~= spec_u64_to_le_bytes(b as u64));
        assert(a as u64 == b as u64);
    } else {
        assert(ea[0] == 0u8);
        assert(b < 0);
        assert(ea.subrange(1, 9) =~= spec_u64_to_le_bytes((-1 - a) as u64));
        assert(eb.subrange(1, 9) =~= spec_u64_to_le_bytes((-1 - b) as u64));
        assert((-1 - a) as u64 == (-1 - b) as u64);
    }
}

fn read_bytes(buf: &Vec<u8>, pos: &mut usize) -> (r: Option<Vec<u8>>)
    ensures
        r matches Some(v) ==> *old(pos) + 8 + v@.len() == *final(pos) && *final(pos) <= buf@.len()
            && buf@.subrange(*old(pos) as int, *final(pos) as int) == spec_enc_bytes(v@),
        r is None ==> *final(pos) == *old(pos) && (forall|bs: Seq<u8>|
            !(*old(pos) + 8 + bs.len() <= buf@.len() && buf@.subrange(
                *old(pos) as int,
                *old(pos) as int + 8 + bs.len() as int,
            ) == spec_enc_bytes(bs))),
{
    let start = *pos;
    let len = match read_u64(buf, pos) {
        Option::Some(l) => l,
        Option::None => {
            return None;
        },
    };
    if len > (buf.len() - *pos) as u64 {
        *pos = start;
        proof {
            lemma_auto_spec_u64_to_from_le_bytes();
            assert forall|bs: Seq<u8>|
                !(start + 8 + bs.len() <= buf@.len() && buf@.subrange(
                    start as int,
                    start as int + 8 + bs.len() as int,
                ) == spec_enc_bytes(bs)) by {
                if start + 8 + bs.len() <= buf@.len() && buf@.subrange(
                    start as int,
                    start as int + 8 + bs.len() as int,
                ) == spec_enc_bytes(bs) {
                    let sub = buf@.subrange(start as int, start as int + 8 + bs.len() as int);
                    assert(sub.subrange(0, 8) =~= buf@.subrange(start as int, start as int + 8));
                    assert(sub.subrange(0, 8) =~= spec_u64_to_le_bytes(bs.len() as u64));
                    assert(len == bs.len() as u64);
                }
            }
        }
        return None;
    }
    let l = len as usize;
    let data_start = *pos;
    let mut v: Vec<u8> = Vec::new();
    let mut k: usize = 0;
    while k < l
        invariant
            data_start + l <= buf@.len(),
            buf@.len() <= usize::MAX,
            k <= l,
            v@ == buf@.subrange(data_start as int, data_start as int + k as int),
        decreases l - k,
    {
        v.push(buf[data_start + k]);
        k += 1;
        proof {
            assert(v@ =~= buf@.subrange(data_start as int, data_start as int + k as int));
        }
    }
    *pos = data_start + l;
    proof {
        assert(v@.len() == len);
        assert(buf@.subrange(start as int, *pos as int) =~= buf@.subrange(
            start as int,
            data_start as int,
        ) + buf@.subrange(data_start as int, *pos as int));
        assert(buf@.subrange(start as int, *pos as int) == spec_enc_bytes(v@));
    }
    Some(v)
}

fn read_opt_bytes(buf: &Vec<u8>, pos: &mut usize) -> (r: Option<Option<Vec<u8>>>)
    ensures
        r matches Some(o) ==> *old(pos) + spec_enc_opt_bytes(o).len() == *final(pos) && *final(pos) <= buf@.len()
            && buf@.subrange(*old(pos) as int, *final(pos) as int) == spec_enc_opt_bytes(o),
        r is None ==> *final(pos) == *old(pos) && (forall|o: Option<Vec<u8>>|
            !(*old(pos) + spec_enc_opt_bytes(o).len() <= buf@.len() && buf@.subrange(
                *old(pos) as int,
                *old(pos) as int + spec_enc_opt_bytes(o).len() as int,
            ) == spec_enc_opt_bytes(o))),
{
    let start = *pos;
    let tag = match read_byte(buf, pos) {
        Option::Some(t) => t,
        Option::None => {
            proof {
                assert forall|o: Option<Vec<u8>>|
                    !(start + spec_enc_opt_bytes(o).len() <= buf@.len() && buf@.subrange(
                        start as int,
                        start as int + spec_enc_opt_bytes(o).len() as int,
                    ) == spec_enc_opt_bytes(o)) by {
                    assert(spec_enc_opt_bytes(o).len() >= 1);
                }
            }
            return None;
        },
    };
    let v = match read_bytes(buf, pos) {
        Option::Some(v) => v,
        Option::None => {
            *pos = start;
            proof {
                assert forall|o: Option<Vec<u8>>|
                    !(start + spec_enc_opt_bytes(o).len() <= buf@.len() && buf@.subrange(
                        start as int,
                        start as int + spec_enc_opt_bytes(o).len() as int,
                    ) == spec_enc_opt_bytes(o)) by {
                    let el = spec_enc_opt_bytes(o).len();
                    if start + el <= buf@.len() && buf@.subrange(start as int, start as int
                        + el as int) == spec_enc_opt_bytes(o) {
                        lemma_auto_spec_u64_to_from_le_bytes();
                        let sub = buf@.subrange(start as int, start as int + el as int);
                        let inner: Seq<u8> = match o {
                            Option::None => Seq::empty(),
                            Option::Some(b) => b@,
                        };
                        assert(spec_enc_bytes(inner).len() == 8 + inner.len());
                        assert(el == 9 + inner.len());
                        assert(sub =~= seq![sub[0]] + spec_enc_bytes(inner));
                        let tail = buf@.subrange(
                            start as int + 1,
                            start as int + 1 + 8 + inner.len() as int,
                        );
                        assert(tail.len() == 8 + inner.len());
                        assert forall|j: int| 0 <= j < 8 + inner.len() implies tail[j]
                            == spec_enc_bytes(inner)[j] by {
                            assert(tail[j] == buf@[start as int + 1 + j]);
                            assert(sub[j + 1] == (seq![sub[0]] + spec_enc_bytes(inner))[j + 1]);
                            assert(sub[j + 1] == buf@[start as int + 1 + j]);
                        }
                        assert(tail =~= spec_enc_bytes(inner));
                    }
                }
            }
            return None;
        },
    };
    if tag > 1 || (tag == 0 && v.len() > 0) {
        *pos = start;
        proof {
            assert forall|o: Option<Vec<u8>>|
                !(start + spec_enc_opt_bytes(o).len() <= buf@.len() && buf@.subrange(
                    start as int,
                    start as int + spec_enc_opt_bytes(o).len() as int,
                ) == spec_enc_opt_bytes(o)) by {
                let el = spec_enc_opt_bytes(o).len();
                if start + el <= buf@.len() && buf@.subrange(start as int, start as int + el as int)
                    == spec_enc_opt_bytes(o) {
                    lemma_auto_spec_u64_to_from_le_bytes();
                    let sub = buf@.subrange(start as int, start as int + el as int);
                    let inner: Seq<u8> = match o {
                        Option::None => Seq::empty(),
                        Option::Some(b) => b@,
                    };
                    assert(sub[0] == buf@[start as int]);
                    assert(sub.subrange(1, el as int) =~= buf@.subrange(
                        start as int + 1,
                        start as int + el as int,
                    ));
                    assert(sub.subrange(1, el as int) =~= spec_enc_bytes(inner));
                    assert(sub.subrange(1, 9) =~= spec_u64_to_le_bytes(inner.len() as u64));
                    assert(buf@.subrange(start as int + 1, start as int + 9) =~= sub.subrange(
                        1,
                        9,
                    ));
                    assert(buf@.subrange(start as int + 1, start as int + 1 + 8) == spec_enc_bytes(
                        v@,
                    ).subrange(0, 8));
                    assert(spec_enc_bytes(v@).subrange(0, 8) =~= spec_u64_to_le_bytes(
                        v@.len() as u64,
                    ));
                    assert(inner.len() as u64 == v@.len() as u64);
                    match o {
                        Option::None => {
                            assert(sub[0] == 0u8);
                            assert(inner.len() == 0);
                        },
                        Option::Some(b) => {
                            assert(sub[0] == 1u8);
                        },
                    }
                }
            }
        }
        return None;
    }
    let o: Option<Vec<u8>> = if tag == 0 {
        None
    } else {
        Some(v)
    };
    proof {
        assert(buf@.subrange(start as int, *pos as int) =~= seq![buf@[start as int]]
            + buf@.subrange(start as int + 1, *pos as int));
        match o {
            Option::None => {
                assert(buf@.subrange(start as int, *pos as int) == spec_enc_opt_bytes(o));
            },
            Option::Some(_) => {
                assert(buf@.subrange(start as int, *pos as int) == spec_enc_opt_bytes(o));
            },
        }
    }
    Some(o)
}

fn read_status(buf: &Vec<u8>, pos: &mut usize) -> (r: Option<Status>)
    ensures
        r matches Some(st) ==> *old(pos) + 1 == *final(pos) && *final(pos) <= buf@.len() && buf@.subrange(
            *old(pos) as int,
            *final(pos) as int,
        ) == spec_enc_status(st),
        r is None ==> *final(pos) == *old(pos) && (forall|st: Status|
            !(*old(pos) + 1 <= buf@.len() && buf@.subrange(
                *old(pos) as int,
                *old(pos) as int + 1,
            ) == spec_enc_status(st))),
{
    let start = *pos;
    let code = match read_byte(buf, pos) {
        Option::Some(c) => c,
        Option::None => {
            return None;
        },
    };
    let st = if code == 0 {
        Status::Open
    } else if code == 1 {
        Status::Closed
    } else if code == 2 {
        Status::Merged
    } else {
        *pos = start;
        proof {
            assert forall|st: Status|
                !(start + 1 <= buf@.len() && buf@.subrange(start as int, start as int + 1)
                    == spec_enc_status(st)) by {
                if start + 1 <= buf@.len() && buf@.subrange(start as int, start as int + 1)
                    == spec_enc_status(st) {
                    assert(buf@.subrange(start as int, start as int + 1)[0] == buf@[start as int]);
                }
            }
        }
        return None;
    };
    proof {
        assert(buf@.subrange(start as int, *pos as int) =~= seq![buf@[start as int]]);
    }
    Some(st)
}

fn read_opt_status(buf: &Vec<u8>, pos: &mut usize) -> (r: Option<Option<Status>>)
    ensures
        r matches Some(o) ==> *old(pos) + 2 <= buf@.len() && *final(pos) == *old(pos) + 2
            && buf@.subrange(*old(pos) as int, *final(pos) as int) == spec_enc_opt_status(o),
        r is None ==> *final(pos) == *old(pos) && (forall|o: Option<Status>|
            !(*old(pos) + 2 <= buf@.len() && buf@.subrange(
                *old(pos) as int,
                *old(pos) as int + 2,
            ) == spec_enc_opt_status(o))),
{
    let start = *pos;
    let tag = match read_byte(buf, pos) {
        Option::Some(t) => t,
        Option::None => {
            return None;
        },
    };
    let code = match read_byte(buf, pos) {
        Option::Some(c) => c,
        Option::None => {
            *pos = start;
            return None;
        },
    };
    let o: Option<Status> = if tag == 0 && code == 0 {
        None
    } else if tag == 1 && code == 0 {
        Some(Status::Open)
    } else if tag == 1 && code == 1 {
        Some(Status::Closed)
    } else if tag == 1 && code == 2 {
        Some(Status::Merged)
    } else {
        *pos = start;
        proof {
            assert forall|o: Option<Status>|
                !(start + 2 <= buf@.len() && buf@.subrange(start as int, start as int + 2)
                    == spec_enc_opt_status(o)) by {
                if start + 2 <= buf@.len() && buf@.subrange(start as int, start as int + 2)
                    == spec_enc_opt_status(o) {
                    let sub = buf@.subrange(start as int, start as int + 2);
                    assert(sub[0] == buf@[start as int]);
                    assert(sub[1] == buf@[start as int + 1]);
                }
            }
        }
        return None;
    };
    proof {
        let sub = buf@.subrange(start as int, *pos as int);
        assert(sub =~= seq![buf@[start as int], buf@[start as int + 1]]);
        assert(sub == spec_enc_opt_status(o));
    }
    Some(o)
}


/// The bytes a possibly absent byte string contributes beyond its framing.
pub open spec fn opt_payload(o: Option<Vec<u8>>) -> Seq<u8> {
    match o {
        Option::None => Seq::empty(),
        Option::Some(v) => v@,
    }
}

/// Two length-prefixed byte strings read at the same place have the same
/// length.
proof fn lemma_enc_bytes_align(b: Seq<u8>, p: int, x: Seq<u8>, y: Seq<u8>)
    requires
        b.len() <= u64::MAX,
        0 <= p,
        p + 8 + x.len() <= b.len(),
        p + 8 + y.len() <= b.len(),
        b.subrange(p, p + 8 + x.len() as int) == spec_enc_bytes(x),
        b.subrange(p, p + 8 + y.len() as int) == spec_enc_bytes(y),
    ensures
        x.len() == y.len(),
{
    lemma_auto_spec_u64_to_from_le_bytes();
    let w = b.subrange(p, p + 8);
    assert(w =~= spec_u64_to_le_bytes(x.len() as u64)) by {
        let ex = b.subrange(p, p + 8 + x.len() as int);
        assert forall|j: int| 0 <= j < 8 implies w[j] == spec_u64_to_le_bytes(x.len() as u64)[j] by {
            assert(ex[j] == b[p + j]);
            assert(ex[j] == (spec_u64_to_le_bytes(x.len() as u64) + x)[j]);
        }
    }
    assert(w =~= spec_u64_to_le_bytes(y.len() as u64)) by {
        let ey = b.subrange(p, p + 8 + y.len() as int);
        assert forall|j: int| 0 <= j < 8 implies w[j] == spec_u64_to_le_bytes(y.len() as u64)[j] by {
            assert(ey[j] == b[p + j]);
            assert(ey[j] == (spec_u64_to_le_bytes(y.len() as u64) + y)[j]);
        }
    }
    assert(x.len() as u64 == y.len() as u64);
}

/// Two possibly absent byte strings read at the same place occupy the same
/// number of bytes.
proof fn lemma_enc_opt_bytes_align(b: Seq<u8>, p: int, x: Option<Vec<u8>>, y: Option<Vec<u8>>)
    requires
        b.len() <= u64::MAX,
        0 <= p,
        p + spec_enc_opt_bytes(x).len() <= b.len(),
        p + spec_enc_opt_bytes(y).len() <= b.len(),
        b.subrange(p, p + spec_enc_opt_bytes(x).len() as int) == spec_enc_opt_bytes(x),
        b.subrange(p, p + spec_enc_opt_bytes(y).len() as int) == spec_enc_opt_bytes(y),
    ensures
        spec_enc_opt_bytes(x).len() == spec_enc_opt_bytes(y).len(),
{
    lemma_auto_spec_u64_to_from_le_bytes();
    let px = opt_payload(x);
    let py = opt_payload(y);
    assert(spec_enc_opt_bytes(x).len() == 9 + px.len());
    assert(spec_enc_opt_bytes(y).len() == 9 + py.len());
    assert(b.subrange(p + 1, p + 1 + 8 + px.len() as int) =~= spec_enc_bytes(px)) by {
        let ex = b.subrange(p, p + 9 + px.len() as int);
        assert(ex =~= seq![ex[0]] + spec_enc_bytes(px));
        assert forall|j: int| 0 <= j < 8 + px.len() implies b[p + 1 + j] == spec_enc_bytes(px)[j] by {
            assert(ex[j + 1] == (seq![ex[0]] + spec_enc_bytes(px))[j + 1]);
            assert(ex[j + 1] == b[p + 1 + j]);
        }
    }
    assert(b.subrange(p + 1, p + 1 + 8 + py.len() as int) =~= spec_enc_bytes(py)) by {
        let ey = b.subrange(p, p + 9 + py.len() as int);
        assert(ey =~= seq![ey[0]] + spec_enc_bytes(py));
        assert forall|j: int| 0 <= j < 8 + py.len() implies b[p + 1 + j] == spec_enc_bytes(py)[j] by {
            assert(ey[j + 1] == (seq![ey[0]] + spec_enc_bytes(py))[j + 1]);
            assert(ey[j + 1] == b[p + 1 + j]);
        }
    }
    lemma_enc_bytes_align(b, p + 1, px, py);
}

/// Where each field of an encoded issue record lies.
proof fn lemma_issue_layout(b: Seq<u8>, i: Issue)
    requires
        b == spec_encode_issue(i),
    ensures
        b.len() == 62 + i.title@.len() + opt_payload(i.body).len() + i.url@.len(),
        b.subrange(0, 8) == spec_u64_to_le_bytes(i.issue_number as u64),
        b.subrange(8, 9) == spec_enc_status(i.status),
        b.subrange(9, 18) == spec_enc_i64(i.created_at),
        b.subrange(18, 27) == spec_enc_i64(i.updated_at),
        b.subrange(27, 37) == spec_enc_opt_i64(i.closed_at),
        b.subrange(37, 45 + i.title@.len() as int) == spec_enc_bytes(i.title@),
        b.subrange(
            45 + i.title@.len() as int,
            54 + i.title@.len() + opt_payload(i.body).len() as int,
        ) == spec_enc_opt_bytes(i.body),
        b.subrange(54 + i.title@.len() + opt_payload(i.body).len() as int, b.len() as int)
            == spec_enc_bytes(i.url@),
{
    lemma_auto_spec_u64_to_from_le_bytes();
    assert(spec_enc_bytes(i.title@).len() == 8 + i.title@.len());
    assert(spec_enc_opt_bytes(i.body).len() == 9 + opt_payload(i.body).len());
    assert(spec_enc_bytes(i.url@).len() == 8 + i.url@.len());
    assert(b.subrange(0, 8) =~= spec_u64_to_le_bytes(i.issue_number as u64));
    assert(b.subrange(8, 9) =~= spec_enc_status(i.status));
    assert(b.subrange(9, 18) =~= spec_enc_i64(i.created_at));
    assert(b.subrange(18, 27) =~= spec_enc_i64(i.updated_at));
    assert(b.subrange(27, 37) =~= spec_enc_opt_i64(i.closed_at));
    assert(b.subrange(37, 45 + i.title@.len() as int) =~= spec_enc_bytes(i.title@));
    assert(b.subrange(
        45 + i.title@.len() as int,
        54 + i.title@.len() + opt_payload(i.body).len() as int,
    ) =~= spec_enc_opt_bytes(i.body));
    assert(b.subrange(54 + i.title@.len() + opt_payload(i.body).len() as int, b.len() as int)
        =~= spec_enc_bytes(i.url@));
}

/// Decodes an issue record. A successful result re-encodes to exactly the
/// input, and every encoded issue record decodes successfully.
pub fn decode_issue(buf: &Vec<u8>) -> (r: Option<Issue>)
    ensures
        r matches Some(o) ==> spec_encode_issue(o) == buf@,
        forall|i: Issue| buf@ == spec_encode_issue(i) ==> r is Some,
{
    let buf_len = buf.len();
    let mut pos: usize = 0;
    let number = match read_u64(buf, &mut pos) {
        Option::Some(x) => x,
        Option::None => {
            proof {
                assert forall|i: Issue| buf@ != spec_encode_issue(i) by {
                    if buf@ == spec_encode_issue(i) {
                        lemma_issue_layout(buf@, i);
                    }
                }
            }
            return None;
        },
    };
    if number > 0xffff_ffff {
        proof {
            lemma_auto_spec_u64_to_from_le_bytes();
            assert forall|i: Issue| buf@ != spec_encode_issue(i) by {
                if buf@ == spec_encode_issue(i) {
                    lemma_issue_layout(buf@, i);
                    assert(number == i.issue_number as u64);
                }
            }
        }
        return None;
    }
    let status = match read_status(buf, &mut pos) {
        Option::Some(st) => st,
        Option::None => {
            proof {
                assert forall|i: Issue| buf@ != spec_encode_issue(i) by {
                    if buf@ == spec_encode_issue(i) {
                        lemma_issue_layout(buf@, i);
                    }
                }
            }
            return None;
        },
    };
    let created_at = match read_i64(buf, &mut pos) {
        Option::Some(x) => x,
        Option::None => {
            proof {
                assert forall|i: Issue| buf@ != spec_encode_issue(i) by {
                    if buf@ == spec_encode_issue(i) {
                        lemma_issue_layout(buf@, i);
                    }
                }
            }
            return None;
        },
    };
    let updated_at = match read_i64(buf, &mut pos) {
        Option::Some(x) => x,
        Option::None => {
            proof {
                assert forall|i: Issue| buf@ != spec_encode_issue(i) by {
                    if buf@ == spec_encode_issue(i) {
                        lemma_issue_layout(buf@, i);
                    }
                }
            }
            return None;
        },
    };
    let closed_at = match read_opt_i64(buf, &mut pos) {
        Option::Some(o) => o,
        Option::None => {
            proof {
                assert forall|i: Issue| buf@ != spec_encode_issue(i) by {
                    if buf@ == spec_encode_issue(i) {
                        lemma_issue_layout(buf@, i);
                    }
                }
            }
            return None;
        },
    };
    let title = match read_bytes(buf, &mut pos) {
        Option::Some(v) => v,
        Option::None => {
            proof {
                assert forall|i: Issue| buf@ != spec_encode_issue(i) by {
                    if buf@ == spec_encode_issue(i) {
                        lemma_issue_layout(buf@, i);
                    }
                }
            }
            return None;
        },
    };
    let p6 = pos;
    let body = match read_opt_bytes(buf, &mut pos) {
        Option::Some(o) => o,
        Option::None => {
            proof {
                assert forall|i: Issue| buf@ != spec_encode_issue(i) by {
                    if buf@ == spec_encode_issue(i) {
                        lemma_issue_layout(buf@, i);
                        lemma_enc_bytes_align(buf@, 37, title@, i.title@);
                    }
                }
            }
            return None;
        },
    };
    let p7 = pos;
    let url = match read_bytes(buf, &mut pos) {
        Option::Some(v) => v,
        Option::None => {
            proof {
                assert forall|i: Issue| buf@ != spec_encode_issue(i) by {
                    if buf@ == spec_encode_issue(i) {
                        lemma_issue_layout(buf@, i);
                        lemma_enc_bytes_align(buf@, 37, title@, i.title@);
                        lemma_enc_opt_bytes_align(buf@, p6 as int, body, i.body);
                    }
                }
            }
            return None;
        },
    };
    if pos != buf_len {
        proof {
            assert forall|i: Issue| buf@ != spec_encode_issue(i) by {
                if buf@ == spec_encode_issue(i) {
                    lemma_issue_layout(buf@, i);
                    lemma_enc_bytes_align(buf@, 37, title@, i.title@);
                    lemma_enc_opt_bytes_align(buf@, p6 as int, body, i.body);
                    lemma_enc_bytes_align(buf@, p7 as int, url@, i.url@);
                }
            }
        }
        return None;
    }
    let o = Issue {
        issue_number: number as u32,
        title,
        body,
        created_at,
        updated_at,
        closed_at,
        status,
        url,
    };
    proof {
        assert(spec_encode_issue(o) =~= buf@.subrange(0, 8) + buf@.subrange(8, 9) + buf@.subrange(
            9,
            18,
        ) + buf@.subrange(18, 27) + buf@.subrange(27, 37) + buf@.subrange(37, p6 as int)
            + buf@.subrange(p6 as int, p7 as int) + buf@.subrange(p7 as int, pos as int));
        assert(spec_encode_issue(o) =~= buf@);
    }
    Some(o)
}


/// Where each field of an encoded pull-request record lies.
proof fn lemma_pr_layout(b: Seq<u8>, p: PullRequest)
    requires
        b == spec_encode_pr(p),
    ensures
        b.len() == 77 + opt_payload(p.title).len() + opt_payload(p.body).len() + opt_payload(
            p.url,
        ).len(),
        b.subrange(0, 8) == spec_u64_to_le_bytes(p.pr_number),
        b.subrange(8, 10) == spec_enc_opt_status(p.status),
        b.subrange(10, 20) == spec_enc_opt_i64(p.created_at),
        b.subrange(20, 30) == spec_enc_opt_i64(p.updated_at),
        b.subrange(30, 40) == spec_enc_opt_i64(p.merged_at),
        b.subrange(40, 50) == spec_enc_opt_i64(p.closed_at),
        b.subrange(50, 59 + opt_payload(p.title).len() as int) == spec_enc_opt_bytes(p.title),
        b.subrange(
            59 + opt_payload(p.title).len() as int,
            68 + opt_payload(p.title).len() + opt_payload(p.body).len() as int,
        ) == spec_enc_opt_bytes(p.body),
        b.subrange(
            68 + opt_payload(p.title).len() + opt_payload(p.body).len() as int,
            b.len() as int,
        ) == spec_enc_opt_bytes(p.url),
{
    lemma_auto_spec_u64_to_from_le_bytes();
    assert(spec_enc_opt_bytes(p.title).len() == 9 + opt_payload(p.title).len());
    assert(spec_enc_opt_bytes(p.body).len() == 9 + opt_payload(p.body).len());
    assert(spec_enc_opt_bytes(p.url).len() == 9 + opt_payload(p.url).len());
    assert(b.subrange(0, 8) =~= spec_u64_to_le_bytes(p.pr_number));
    assert(b.subrange(8, 10) =~= spec_enc_opt_status(p.status));
    assert(b.subrange(10, 20) =~= spec_enc_opt_i64(p.created_at));
    assert(b.subrange(20, 30) =~= spec_enc_opt_i64(p.updated_at));
    assert(b.subrange(30, 40) =~= spec_enc_opt_i64(p.merged_at));
    assert(b.subrange(40, 50) =~= spec_enc_opt_i64(p.closed_at));
    assert(b.subrange(50, 59 + opt_payload(p.title).len() as int) =~= spec_enc_opt_bytes(p.title));
    assert(b.subrange(
        59 + opt_payload(p.title).len() as int,
        68 + opt_payload(p.title).len() + opt_payload(p.body).len() as int,
    ) =~= spec_enc_opt_bytes(p.body));
    assert(b.subrange(
        68 + opt_payload(p.title).len() + opt_payload(p.body).len() as int,
        b.len() as int,
    ) =~= spec_enc_opt_bytes(p.url));
}

/// Decodes a pull-request record. A successful result re-encodes to exactly
/// the input, and every encoded pull-request record decodes successfully.
pub fn decode_pr(buf: &Vec<u8>) -> (r: Option<PullRequest>)
    ensures
        r matches Some(o) ==> spec_encode_pr(o) == buf@,
        forall|p: PullRequest| buf@ == spec_encode_pr(p) ==> r is Some,
{
    let buf_len = buf.len();
    let mut pos: usize = 0;
    let number = match read_u64(buf, &mut pos) {
        Option::Some(x) => x,
        Option::None => {
            proof {
                assert forall|p: PullRequest| buf@ != spec_encode_pr(p) by {
                    if buf@ == spec_encode_pr(p) {
                        lemma_pr_layout(buf@, p);
                    }
                }
            }
            return None;
        },
    };
    let status = match read_opt_status(buf, &mut pos) {
        Option::Some(o) => o,
        Option::None => {
            proof {
                assert forall|p: PullRequest| buf@ != spec_encode_pr(p) by {
                    if buf@ == spec_encode_pr(p) {
                        lemma_pr_layout(buf@, p);
                    }
                }
            }
            return None;
        },
    };
    let created_at = match read_opt_i64(buf, &mut pos) {
        Option::Some(o) => o,
        Option::None => {
            proof {
                assert forall|p: PullRequest| buf@ != spec_encode_pr(p) by {
                    if buf@ == spec_encode_pr(p) {
                        lemma_pr_layout(buf@, p);
                    }
                }
            }
            return None;
        },
    };
    let updated_at = match read_opt_i64(buf, &mut pos) {
        Option::Some(o) => o,
        Option::None => {
            proof {
                assert forall|p: PullRequest| buf@ != spec_encode_pr(p) by {
                    if buf@ == spec_encode_pr(p) {
                        lemma_pr_layout(buf@, p);
                    }
                }
            }
            return None;
        },
    };
    let merged_at = match read_opt_i64(buf, &mut pos) {
        Option::Some(o) => o,
        Option::None => {
            proof {
                assert forall|p: PullRequest| buf@ != spec_encode_pr(p) by {
                    if buf@ == spec_encode_pr(p) {
                        lemma_pr_layout(buf@, p);
                    }
                }
            }
            return None;
        },
    };
    let closed_at = match read_opt_i64(buf, &mut pos) {
        Option::Some(o) => o,
        Option::None => {
            proof {
                assert forall|p: PullRequest| buf@ != spec_encode_pr(p) by {
                    if buf@ == spec_encode_pr(p) {
                        lemma_pr_layout(buf@, p);
                    }
                }
            }
            return None;
        },
    };
    let title = match read_opt_bytes(buf, &mut pos) {
        Option::Some(o) => o,
        Option::None => {
            proof {
                assert forall|p: PullRequest| buf@ != spec_encode_pr(p) by {
                    if buf@ == spec_encode_pr(p) {
                        lemma_pr_layout(buf@, p);
                    }
                }
            }
            return None;
        },
    };
    let p7 = pos;
    let body = match read_opt_bytes(buf, &mut pos) {
        Option::Some(o) => o,
        Option::None => {
            proof {
                assert forall|p: PullRequest| buf@ != spec_encode_pr(p) by {
                    if buf@ == spec_encode_pr(p) {
                        lemma_pr_layout(buf@, p);
                        lemma_enc_opt_bytes_align(buf@, 50, title, p.title);
                    }
                }
            }
            return None;
        },
    };
    let p8 = pos;
    let url = match read_opt_bytes(buf, &mut pos) {
        Option::Some(o) => o,
        Option::None => {
            proof {
                assert forall|p: PullRequest| buf@ != spec_encode_pr(p) by {
                    if buf@ == spec_encode_pr(p) {
                        lemma_pr_layout(buf@, p);
                        lemma_enc_opt_bytes_align(buf@, 50, title, p.title);
                        lemma_enc_opt_bytes_align(buf@, p7 as int, body, p.body);
                    }
                }
            }
            return None;
        },
    };
    if pos != buf_len {
        proof {
            assert forall|p: PullRequest| buf@ != spec_encode_pr(p) by {
                if buf@ == spec_encode_pr(p) {
                    lemma_pr_layout(buf@, p);
                    lemma_enc_opt_bytes_align(buf@, 50, title, p.title);
                    lemma_enc_opt_bytes_align(buf@, p7 as int, body, p.body);
                    lemma_enc_opt_bytes_align(buf@, p8 as int, url, p.url);
                }
            }
        }
        return None;
    }
    let o = PullRequest {
        pr_number: number,
        title,
        body,
        created_at,
        updated_at,
        merged_at,
        closed_at,
        status,
        url,
    };
    proof {
        assert(spec_encode_pr(o) =~= buf@.subrange(0, 8) + buf@.subrange(8, 10) + buf@.subrange(
            10,
            20,
        ) + buf@.subrange(20, 30) + buf@.subrange(30, 40) + buf@.subrange(40, 50) + buf@.subrange(
            50,
            p7 as int,
        ) + buf@.subrange(p7 as int, p8 as int) + buf@.subrange(p8 as int, pos as int));
        assert(spec_encode_pr(o) =~= buf@);
    }
    Some(o)
}

} // verus!
