//! The run over a shard set: decode every shard, merge each local count into
//! the global histogram, and hand the result back only when every shard
//! reached a terminal state. A single failure fails the whole run; nothing
//! partial is handed out.
use vstd::prelude::*;

use crate::decode::{decode_shard, lemma_members_cnt_nonneg, shard_cnt, shard_decodes,
    shard_fails_with, DecodeError};
use crate::histogram::Histogram;

verus! {

/// Why a run over a shard set failed.
#[derive(Clone, Copy, Debug, PartialEq, Eq)]
pub enum AggregateError {
    /// Some shard failed to decode; the run is discarded.
    Shard(DecodeError),
    /// Some token's global count exceeds `u64::MAX`.
    CountOverflow,
}

/// Occurrences of `t` summed over every shard of `ss`.
pub open spec fn shards_cnt(ss: Seq<Seq<u8>>, t: u64) -> int
    decreases ss.len(),
{
    if ss.len() == 0 {
        0
    } else {
        shards_cnt(ss.drop_last(), t) + shard_cnt(ss.last(), t)
    }
}

/// Every shard of `ss` decodes.
pub open spec fn shards_decode(ss: Seq<Seq<u8>>) -> bool {
    forall|i: int| 0 <= i < ss.len() ==> shard_decodes(ss[i])
}

pub proof fn lemma_shard_cnt_nonneg(b: Seq<u8>, t: u64)
    ensures
        shard_cnt(b, t) >= 0,
{
    match crate::container::members_of(b) {
        None => (),
        Some(ms) => lemma_members_cnt_nonneg(ms, t),
    }
}

pub proof fn lemma_shards_cnt_nonneg(ss: Seq<Seq<u8>>, t: u64)
    ensures
        shards_cnt(ss, t) >= 0,
    decreases ss.len(),
{
    if ss.len() > 0 {
        lemma_shards_cnt_nonneg(ss.drop_last(), t);
        lemma_shard_cnt_nonneg(ss.last(), t);
    }
}

/// Extending a prefix by one shard adds that shard's occurrences.
pub proof fn lemma_shards_cnt_take_step(ss: Seq<Seq<u8>>, i: int)
    requires
        0 <= i < ss.len(),
    ensures
        forall|t: u64|
            shards_cnt(ss.take(i + 1), t) == shards_cnt(ss.take(i), t) + shard_cnt(ss[i], t),
{
    assert forall|t: u64|
        shards_cnt(ss.take(i + 1), t) == shards_cnt(ss.take(i), t) + shard_cnt(ss[i], t) by {
        assert(ss.take(i + 1).drop_last() =~= ss.take(i));
        assert(ss.take(i + 1).last() == ss[i]);
    }
}

/// A prefix of the shards never tallies more than all of them.
pub proof fn lemma_shards_cnt_take_mono(ss: Seq<Seq<u8>>, i: int, t: u64)
    requires
        0 <= i <= ss.len(),
    ensures
        shards_cnt(ss, t) >= shards_cnt(ss.take(i), t),
    decreases ss.len() - i,
{
    if i == ss.len() {
        assert(ss.take(i) =~= ss);
    } else {
        lemma_shards_cnt_take_step(ss, i);
        lemma_shard_cnt_nonneg(ss[i], t);
        lemma_shards_cnt_take_mono(ss, i + 1, t);
    }
}

/// One shard never tallies more than the whole set.
pub proof fn lemma_shards_cnt_elem(ss: Seq<Seq<u8>>, i: int, t: u64)
    requires
        0 <= i < ss.len(),
    ensures
        shards_cnt(ss, t) >= shard_cnt(ss[i], t),
{
    lemma_shards_cnt_take_step(ss, i);
    lemma_shards_cnt_take_mono(ss, i + 1, t);
    lemma_shards_cnt_nonneg(ss.take(i), t);
}

/// Removing one shard removes exactly its contribution.
proof fn lemma_shards_cnt_remove(ss: Seq<Seq<u8>>, j: int, t: u64)
    requires
        0 <= j < ss.len(),
    ensures
        shards_cnt(ss.remove(j), t) == shards_cnt(ss, t) - shard_cnt(ss[j], t),
    decreases ss.len(),
{
    if j == ss.len() - 1 {
        assert(ss.remove(j) =~= ss.drop_last());
    } else {
        lemma_shards_cnt_remove(ss.drop_last(), j, t);
        assert(ss.remove(j).drop_last() =~= ss.drop_last().remove(j));
        assert(ss.remove(j).last() == ss.last());
    }
}

/// Merge-order independence: any two arrangements of the same multiset of
/// shards yield the same global count for every token, so the histogram does
/// not depend on the order or interleaving in which shards complete.
pub proof fn lemma_merge_order_independent(a: Seq<Seq<u8>>, b: Seq<Seq<u8>>, t: u64)
    requires
        a.to_multiset() == b.to_multiset(),
    ensures
        shards_cnt(a, t) == shards_cnt(b, t),
    decreases a.len(),
{
    broadcast use vstd::seq_lib::group_to_multiset_ensures;

    if a.len() == 0 {
        assert(b.to_multiset().len() == 0);
        assert(b.len() == 0);
    } else {
        let x = a.last();
        assert(a.contains(x));
        assert(a.to_multiset().count(x) > 0);
        assert(b.to_multiset().count(x) > 0);
        assert(b.contains(x));
        let j = choose|j: int| 0 <= j < b.len() && b[j] == x;
        assert(a.drop_last() =~= a.remove(a.len() - 1));
        assert(a.remove(a.len() - 1).to_multiset() == a.to_multiset().remove(x));
        assert(b.remove(j).to_multiset() == b.to_multiset().remove(x));
        lemma_merge_order_independent(a.drop_last(), b.remove(j), t);
        lemma_shards_cnt_remove(b, j, t);
    }
}

/// Runs the whole aggregation over in-memory shard bytes: decodes each shard
/// in turn, merges its local count into the global histogram, and returns the
/// histogram with the number of shards processed. `Ok` exactly where every
/// shard decodes and no global count exceeds `u64::MAX`; any failure discards
/// the run.
pub fn run_shards(shards: &Vec<Vec<u8>>) -> (r: Result<(Histogram, usize), AggregateError>)
    ensures
        match r {
            Ok(p) => {
                &&& p.1 == shards@.len()
                &&& shards_decode(shards.deep_view())
                &&& p.0.wf()
                &&& forall|t: u64| p.0.cnt(t) == shards_cnt(shards.deep_view(), t)
            },
            Err(e) => match e {
                AggregateError::Shard(de) => exists|i: int|
                    0 <= i < shards.deep_view().len() && shard_fails_with(
                        shards.deep_view()[i],
                        de,
                    ),
                AggregateError::CountOverflow => exists|t: u64|
                    shards_cnt(shards.deep_view(), t) > u64::MAX,
            },
        },
        (shards_decode(shards.deep_view()) && (forall|t: u64|
            shards_cnt(shards.deep_view(), t) <= u64::MAX)) ==> r is Ok,
{
    let ghost gss = shards.deep_view();
    let mut hist = Histogram::new();
    let n = shards.len();
    proof {
        assert(gss.len() == n);
    }
    let mut i: usize = 0;
    while i < n
        invariant
            gss == shards.deep_view(),
            n == shards@.len(),
            gss.len() == n,
            0 <= i <= n,
            hist.wf(),
            forall|k: int| 0 <= k < i ==> shard_decodes(gss[k]),
            forall|t: u64| hist.cnt(t) == shards_cnt(gss.take(i as int), t),
        decreases n - i,
    {
        let sb: &Vec<u8> = vstd::slice::slice_index_get(shards.as_slice(), i);
        proof {
            assert(sb@ == gss[i as int]);
        }
        let local = match decode_shard(sb) {
            Err(e) => {
                proof {
                    assert(shard_fails_with(gss[i as int], e));
                    match e {
                        DecodeError::CountOverflow => {
                            let t0 = choose|t: u64| shard_cnt(gss[i as int], t) > u64::MAX;
                            lemma_shards_cnt_elem(gss, i as int, t0);
                            assert(shards_cnt(gss, t0) > u64::MAX);
                        },
                        _ => {
                            assert(!shard_decodes(gss[i as int]));
                        },
                    }
                }
                return Err(AggregateError::Shard(e));
            },
            Ok(h) => h,
        };
        let ghost before = hist;
        let ok = hist.merge(&local);
        if !ok {
            proof {
                let t0 = choose|t: u64| before.cnt(t) + local.cnt(t) > u64::MAX;
                lemma_shards_cnt_take_step(gss, i as int);
                assert(shards_cnt(gss.take(i + 1), t0) > u64::MAX);
                lemma_shards_cnt_take_mono(gss, i + 1, t0);
                assert(shards_cnt(gss, t0) > u64::MAX);
            }
            return Err(AggregateError::CountOverflow);
        }
        proof {
            lemma_shards_cnt_take_step(gss, i as int);
            assert forall|t: u64| hist.cnt(t) == shards_cnt(gss.take(i + 1), t) by {
                assert(hist.cnt(t) == before.cnt(t) + local.cnt(t));
                assert(shards_cnt(gss.take(i + 1), t) == shards_cnt(gss.take(i as int), t)
                    + shard_cnt(gss[i as int], t));
            }
        }
        i = i + 1;
    }
    proof {
        assert(gss.take(n as int) =~= gss);
    }
    Ok((hist, n))
}

} // verus!
