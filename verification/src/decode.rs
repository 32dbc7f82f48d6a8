//! Decoding one shard: container traversal, member decompression, payload
//! parsing, and the local occurrence count.
use vstd::prelude::*;

use crate::container::{members_of, parse_container};
use crate::gzip::{gunzip, gunzip_of};
use crate::histogram::Histogram;
use crate::payload::{lemma_occ_nonneg, lemma_occ_take_mono, lemma_occ_take_step, occ,
    parse_tokens, tokens_of};

verus! {

/// Why a shard failed to decode.
#[derive(Clone, Copy, Debug, PartialEq, Eq)]
pub enum DecodeError {
    /// The bytes are not a well-formed container.
    Container,
    /// A member is not a valid gzip stream.
    MemberDecompress,
    /// A decompressed member is not a list of integers.
    MemberPayload,
    /// A token's count in this one shard exceeds `u64::MAX`.
    CountOverflow,
}

/// Tokens encoded by one compressed member, or `None` where it does not
/// decompress or its payload is not a list of integers.
pub open spec fn member_tokens(m: Seq<u8>) -> Option<Seq<u64>> {
    match gunzip_of(m) {
        None => None,
        Some(p) => tokens_of(p),
    }
}

/// Occurrences of `t` summed over the member payloads of `ms`; a member that
/// does not decode contributes nothing.
pub open spec fn members_cnt(ms: Seq<Seq<u8>>, t: u64) -> int
    decreases ms.len(),
{
    if ms.len() == 0 {
        0
    } else {
        members_cnt(ms.drop_last(), t) + match member_tokens(ms.last()) {
            Some(toks) => occ(toks, t),
            None => 0int,
        }
    }
}

/// Every member of `ms` decodes to a token list.
pub open spec fn members_decode(ms: Seq<Seq<u8>>) -> bool {
    forall|i: int| 0 <= i < ms.len() ==> member_tokens(ms[i]) is Some
}

/// The shard bytes are a well-formed container whose members all decode.
pub open spec fn shard_decodes(b: Seq<u8>) -> bool {
    &&& members_of(b) is Some
    &&& members_decode(members_of(b).unwrap())
}

/// Occurrences of `t` across every document of the shard `b`; zero where the
/// container itself is malformed.
pub open spec fn shard_cnt(b: Seq<u8>, t: u64) -> int {
    match members_of(b) {
        None => 0,
        Some(ms) => members_cnt(ms, t),
    }
}

/// Some member of the shard is not a valid gzip stream.
pub open spec fn some_member_fails_decompress(b: Seq<u8>) -> bool {
    &&& members_of(b) is Some
    &&& exists|i: int|
        0 <= i < members_of(b).unwrap().len() && gunzip_of(members_of(b).unwrap()[i]) is None
}

/// Some member decompresses, but not to a list of integers.
pub open spec fn some_member_fails_parse(b: Seq<u8>) -> bool {
    &&& members_of(b) is Some
    &&& exists|i: int|
        {
            &&& 0 <= i < members_of(b).unwrap().len()
            &&& gunzip_of(members_of(b).unwrap()[i]) is Some
            &&& tokens_of(gunzip_of(members_of(b).unwrap()[i]).unwrap()) is None
        }
}

pub proof fn lemma_members_cnt_nonneg(ms: Seq<Seq<u8>>, t: u64)
    ensures
        members_cnt(ms, t) >= 0,
    decreases ms.len(),
{
    if ms.len() > 0 {
        lemma_members_cnt_nonneg(ms.drop_last(), t);
        match member_tokens(ms.last()) {
            Some(toks) => lemma_occ_nonneg(toks, t),
            None => (),
        }
    }
}

/// Extending a prefix by one member adds that member's occurrences.
pub proof fn lemma_members_cnt_take_step(ms: Seq<Seq<u8>>, i: int)
    requires
        0 <= i < ms.len(),
    ensures
        forall|t: u64|
            members_cnt(ms.take(i + 1), t) == members_cnt(ms.take(i), t) + match member_tokens(
                ms[i],
            ) {
                Some(toks) => occ(toks, t),
                None => 0int,
            },
{
    assert forall|t: u64|
        members_cnt(ms.take(i + 1), t) == members_cnt(ms.take(i), t) + (match member_tokens(
            ms[i],
        ) {
            Some(toks) => occ(toks, t),
            None => 0int,
        }) by {
        assert(ms.take(i + 1).drop_last() =~= ms.take(i));
        assert(ms.take(i + 1).last() == ms[i]);
    }
}

/// A prefix of the members never tallies more than all of them.
pub proof fn lemma_members_cnt_take_mono(ms: Seq<Seq<u8>>, i: int, t: u64)
    requires
        0 <= i <= ms.len(),
    ensures
        members_cnt(ms, t) >= members_cnt(ms.take(i), t),
    decreases ms.len() - i,
{
    if i == ms.len() {
        assert(ms.take(i) =~= ms);
    } else {
        lemma_members_cnt_take_step(ms, i);
        match member_tokens(ms[i]) {
            Some(toks) => lemma_occ_nonneg(toks, t),
            None => (),
        }
        lemma_members_cnt_take_mono(ms, i + 1, t);
    }
}

/// What each decoding error says of the shard bytes.
pub open spec fn shard_fails_with(b: Seq<u8>, e: DecodeError) -> bool {
    match e {
        DecodeError::Container => members_of(b) is None,
        DecodeError::MemberDecompress => some_member_fails_decompress(b),
        DecodeError::MemberPayload => some_member_fails_parse(b),
        DecodeError::CountOverflow => exists|t: u64| shard_cnt(b, t) > u64::MAX,
    }
}

/// Decoding is a function of the shard bytes alone: two local counts computed
/// for the same bytes agree on every token.
pub proof fn lemma_decode_deterministic(h1: Histogram, h2: Histogram, b: Seq<u8>)
    requires
        forall|t: u64| h1.cnt(t) == shard_cnt(b, t),
        forall|t: u64| h2.cnt(t) == shard_cnt(b, t),
    ensures
        forall|t: u64| h1.cnt(t) == h2.cnt(t),
{
}

/// Decodes one shard into its local count: every member is visited once, its
/// payload decompressed and parsed, and each token id tallied. `Ok` exactly
/// where the container is well formed, every member decodes, and no count
/// exceeds `u64::MAX`.
pub fn decode_shard(bytes: &Vec<u8>) -> (r: Result<Histogram, DecodeError>)
    ensures
        match r {
            Ok(h) => {
                &&& h.wf()
                &&& shard_decodes(bytes@)
                &&& forall|t: u64| h.cnt(t) == shard_cnt(bytes@, t)
            },
            Err(e) => shard_fails_with(bytes@, e),
        },
        (shard_decodes(bytes@) && forall|t: u64| shard_cnt(bytes@, t) <= u64::MAX) ==> r is Ok,
{
    let ghost gb = bytes@;
    let ms = match parse_container(bytes) {
        None => {
            return Err(DecodeError::Container);
        },
        Some(ms) => ms,
    };
    let ghost gms = ms.deep_view();
    proof {
        assert(members_of(gb) == Some(gms));
    }
    let mut hist = Histogram::new();
    let n = ms.len();
    proof {
        assert(gms.len() == n);
    }
    let mut i: usize = 0;
    while i < n
        invariant
            gb == bytes@,
            gms == ms.deep_view(),
            members_of(gb) == Some(gms),
            n == ms@.len(),
            gms.len() == n,
            0 <= i <= n,
            hist.wf(),
            forall|k: int| 0 <= k < i ==> member_tokens(gms[k]) is Some,
            forall|t: u64| hist.cnt(t) == members_cnt(gms.take(i as int), t),
        decreases n - i,
    {
        let member: &Vec<u8> = vstd::slice::slice_index_get(ms.as_slice(), i);
        proof {
            assert(member@ == gms[i as int]);
        }
        let payload = match gunzip(member) {
            None => {
                assert(some_member_fails_decompress(gb));
                assert(!members_decode(gms));
                return Err(DecodeError::MemberDecompress);
            },
            Some(p) => p,
        };
        let toks = match parse_tokens(&payload) {
            None => {
                assert(some_member_fails_parse(gb));
                assert(!members_decode(gms));
                return Err(DecodeError::MemberPayload);
            },
            Some(toks) => toks,
        };
        let ghost gt = toks@;
        proof {
            assert(member_tokens(gms[i as int]) == Some(gt));
        }
        let m = toks.len();
        let mut k: usize = 0;
        while k < m
            invariant
                gb == bytes@,
                members_of(gb) == Some(gms),
                gms.len() >= i + 1,
                0 <= i < gms.len(),
                member_tokens(gms[i as int]) == Some(gt),
                m == toks@.len(),
                gt == toks@,
                0 <= k <= m,
                hist.wf(),
                forall|t: u64|
                    hist.cnt(t) == members_cnt(gms.take(i as int), t) + occ(gt.take(k as int), t),
            decreases m - k,
        {
            let tok = toks[k];
            let ok = hist.add_count(tok, 1);
            if !ok {
                proof {
                    let t0 = tok;
                    lemma_occ_take_step(gt, k as int);
                    assert(occ(gt.take(k + 1), t0) == occ(gt.take(k as int), t0) + 1);
                    lemma_occ_take_mono(gt, k + 1, t0);
                    lemma_members_cnt_take_step(gms, i as int);
                    assert(members_cnt(gms.take(i + 1), t0) >= members_cnt(gms.take(i as int), t0)
                        + occ(gt.take(k + 1), t0));
                    lemma_members_cnt_take_mono(gms, i + 1, t0);
                    assert(shard_cnt(gb, t0) > u64::MAX);
                }
                return Err(DecodeError::CountOverflow);
            }
            proof {
                lemma_occ_take_step(gt, k as int);
            }
            k = k + 1;
        }
        proof {
            assert(gt.take(m as int) =~= gt);
            lemma_members_cnt_take_step(gms, i as int);
            assert forall|t: u64|
                hist.cnt(t) == members_cnt(gms.take(i + 1), t) by {
                assert(members_cnt(gms.take(i + 1), t) == members_cnt(gms.take(i as int), t) + occ(
                    gt,
                    t,
                ));
            }
        }
        i = i + 1;
    }
    proof {
        assert(gms.take(n as int) =~= gms);
    }
    Ok(hist)
}

} // verus!
