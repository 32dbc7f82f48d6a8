//! Mapping from token id to occurrence count, used both for the per-shard
//! partial count and for the global histogram that partial counts merge into.
//!
//! The mathematical content of a histogram is the function `cnt`: the count
//! it holds for each token id. Entries are kept as key/count pairs with
//! pairwise-distinct keys and strictly positive counts, so a token has an
//! entry exactly when it was observed at least once.
use vstd::prelude::*;

verus! {

/// Sum of the counts that the pairs of `s` give to token `t`.
pub open spec fn pairs_cnt(s: Seq<(u64, u64)>, t: u64) -> int
    decreases s.len(),
{
    if s.len() == 0 {
        0
    } else {
        pairs_cnt(s.drop_last(), t) + if s.last().0 == t {
            s.last().1 as int
        } else {
            0int
        }
    }
}

/// Sum of all counts held by the pairs of `s`.
pub open spec fn pairs_total(s: Seq<(u64, u64)>) -> int
    decreases s.len(),
{
    if s.len() == 0 {
        0
    } else {
        pairs_total(s.drop_last()) + s.last().1 as int
    }
}

/// No two pairs name the same token.
pub open spec fn distinct_keys(s: Seq<(u64, u64)>) -> bool {
    forall|a: int, b: int| 0 <= a < b < s.len() ==> s[a].0 != s[b].0
}

/// Every pair records at least one occurrence.
pub open spec fn positive_counts(s: Seq<(u64, u64)>) -> bool {
    forall|i: int| 0 <= i < s.len() ==> s[i].1 >= 1
}

#[derive(Debug)]
pub struct Histogram {
    pairs: Vec<(u64, u64)>,
}

impl Histogram {
    /// The entries, in insertion order.
    pub closed spec fn pairs_view(self) -> Seq<(u64, u64)> {
        self.pairs@
    }

    /// Keys are pairwise distinct and every count is at least one.
    pub open spec fn wf(self) -> bool {
        distinct_keys(self.pairs_view()) && positive_counts(self.pairs_view())
    }

    /// The count this histogram holds for token `t` (zero where absent).
    pub open spec fn cnt(self, t: u64) -> int {
        pairs_cnt(self.pairs_view(), t)
    }

    pub fn new() -> (r: Histogram)
        ensures
            r.wf(),
            r.pairs_view() == Seq::<(u64, u64)>::empty(),
            forall|t: u64| r.cnt(t) == 0,
    {
        Histogram { pairs: Vec::new() }
    }

    /// Number of distinct tokens observed.
    pub fn distinct_tokens(&self) -> (r: usize)
        ensures
            r == self.pairs_view().len(),
    {
        self.pairs.len()
    }

    /// Adds `c` occurrences of token `t`. Fails, leaving the histogram
    /// unchanged, exactly where the new count would exceed `u64::MAX`.
    pub fn add_count(&mut self, t: u64, c: u64) -> (r: bool)
        requires
            old(self).wf(),
            c >= 1,
        ensures
            final(self).wf(),
            r <==> old(self).cnt(t) + c <= u64::MAX,
            r ==> forall|u: u64|
                final(self).cnt(u) == old(self).cnt(u) + if u == t {
                    c as int
                } else {
                    0int
                },
            !r ==> *final(self) == *old(self),
    {
        let ghost s0 = self.pairs@;
        proof {
            assert(distinct_keys(s0));
            assert(positive_counts(s0));
        }
        let n = self.pairs.len();
        let mut i: usize = 0;
        while i < n
            invariant
                s0 == self.pairs@,
                n == s0.len(),
                0 <= i <= n,
                distinct_keys(s0),
                positive_counts(s0),
                *self == *old(self),
                forall|k: int| 0 <= k < i ==> s0[k].0 != t,
            decreases n - i,
        {
            if self.pairs[i].0 == t {
                let prev = self.pairs[i].1;
                proof {
                    lemma_pairs_cnt_unique(s0, i as int, t);
                }
                if c > u64::MAX - prev {
                    return false;
                }
                let ghost p = (t, (prev + c) as u64);
                self.pairs[i] = (t, prev + c);
                proof {
                    let s1 = self.pairs@;
                    assert(s1 == s0.update(i as int, p));
                    lemma_pairs_cnt_set(s0, i as int, p);
                    assert forall|a: int, b: int|
                        0 <= a < b < s1.len() implies s1[a].0 != s1[b].0 by {
                        assert(s0[a].0 != s0[b].0);
                    }
                    assert forall|k: int| 0 <= k < s1.len() implies s1[k].1 >= 1 by {
                        assert(s0[k].1 >= 1);
                    }
                    assert forall|u: u64|
                        final(self).cnt(u) == old(self).cnt(u) + (if u == t {
                            c as int
                        } else {
                            0int
                        }) by {
                        assert(pairs_cnt(s1, u) == pairs_cnt(s0, u) + if p.0 == u {
                            p.1 - s0[i as int].1
                        } else {
                            0int
                        });
                    }
                }
                return true;
            }
            i = i + 1;
        }
        proof {
            lemma_pairs_cnt_absent(s0, t);
        }
        self.pairs.push((t, c));
        proof {
            let s1 = self.pairs@;
            assert(s1.drop_last() =~= s0);
            assert(s1.last() == (t, c));
            assert forall|a: int, b: int| 0 <= a < b < s1.len() implies s1[a].0 != s1[b].0 by {
                if b < s0.len() {
                    assert(s0[a].0 != s0[b].0);
                } else {
                    assert(s0[a].0 != t);
                }
            }
            assert forall|k: int| 0 <= k < s1.len() implies s1[k].1 >= 1 by {
                if k < s0.len() {
                    assert(s0[k].1 >= 1);
                }
            }
            assert forall|u: u64|
                final(self).cnt(u) == old(self).cnt(u) + (if u == t {
                    c as int
                } else {
                    0int
                }) by {
                assert(pairs_cnt(s1, u) == pairs_cnt(s0, u) + if u == t {
                    c as int
                } else {
                    0int
                });
            }
        }
        true
    }

    /// The count recorded for token `t`, zero where `t` was never observed.
    pub fn get(&self, t: u64) -> (r: u64)
        requires
            self.wf(),
        ensures
            r as int == self.cnt(t),
    {
        let ghost s0 = self.pairs@;
        proof {
            assert(distinct_keys(s0));
        }
        let n = self.pairs.len();
        let mut i: usize = 0;
        while i < n
            invariant
                s0 == self.pairs@,
                n == s0.len(),
                0 <= i <= n,
                distinct_keys(s0),
                forall|k: int| 0 <= k < i ==> s0[k].0 != t,
            decreases n - i,
        {
            if self.pairs[i].0 == t {
                proof {
                    lemma_pairs_cnt_unique(s0, i as int, t);
                }
                return self.pairs[i].1;
            }
            i = i + 1;
        }
        proof {
            lemma_pairs_cnt_absent(s0, t);
        }
        0
    }

    /// Merges another histogram into this one by adding counts pointwise.
    /// Fails exactly where some token's summed count would exceed `u64::MAX`;
    /// a failed merge may leave this histogram partially updated, but still
    /// well formed.
    pub fn merge(&mut self, other: &Histogram) -> (r: bool)
        requires
            old(self).wf(),
            other.wf(),
        ensures
            final(self).wf(),
            r ==> forall|t: u64| final(self).cnt(t) == old(self).cnt(t) + other.cnt(t),
            !r ==> exists|t: u64| old(self).cnt(t) + other.cnt(t) > u64::MAX,
            (forall|t: u64| old(self).cnt(t) + other.cnt(t) <= u64::MAX) ==> r,
    {
        let ghost os = other.pairs@;
        proof {
            assert(distinct_keys(os));
            assert(positive_counts(os));
        }
        let n = other.pairs.len();
        let mut i: usize = 0;
        while i < n
            invariant
                os == other.pairs@,
                n == os.len(),
                0 <= i <= n,
                distinct_keys(os),
                positive_counts(os),
                self.wf(),
                forall|t: u64| self.cnt(t) == old(self).cnt(t) + pairs_cnt(os.take(i as int), t),
            decreases n - i,
        {
            let p = other.pairs[i];
            proof {
                assert(os[i as int].1 >= 1);
                lemma_pairs_cnt_take_absent(os, i as int, p.0);
                lemma_pairs_cnt_unique(os, i as int, p.0);
                lemma_pairs_cnt_take_step(os, i as int);
            }
            let ghost before = *self;
            let ok = self.add_count(p.0, p.1);
            if !ok {
                proof {
                    assert(before.cnt(p.0) == old(self).cnt(p.0) + pairs_cnt(
                        os.take(i as int),
                        p.0,
                    ));
                    assert(old(self).cnt(p.0) + other.cnt(p.0) > u64::MAX);
                }
                return false;
            }
            proof {
                assert forall|t: u64|
                    self.cnt(t) == old(self).cnt(t) + pairs_cnt(os.take(i + 1), t) by {
                    assert(self.cnt(t) == before.cnt(t) + if t == p.0 {
                        p.1 as int
                    } else {
                        0int
                    });
                    assert(pairs_cnt(os.take(i + 1), t) == pairs_cnt(os.take(i as int), t)
                        + if os[i as int].0 == t {
                        os[i as int].1 as int
                    } else {
                        0int
                    });
                }
            }
            i = i + 1;
        }
        proof {
            assert(os.take(n as int) =~= os);
        }
        true
    }

    /// Sum of all counts: the total number of token occurrences observed.
    pub fn total(&self) -> (r: u128)
        ensures
            r == pairs_total(self.pairs_view()),
    {
        let ghost s0 = self.pairs@;
        let n = self.pairs.len();
        let mut acc: u128 = 0;
        let mut i: usize = 0;
        while i < n
            invariant
                s0 == self.pairs@,
                n == s0.len(),
                0 <= i <= n,
                acc == pairs_total(s0.take(i as int)),
                acc <= (i as int) * (u64::MAX as int),
            decreases n - i,
        {
            proof {
                assert(s0.take(i + 1).drop_last() =~= s0.take(i as int));
                assert(s0.take(i + 1).last() == s0[i as int]);
                assert((i + 1) * (u64::MAX as int) == (i as int) * (u64::MAX as int) + (
                u64::MAX as int));
                assert((i + 1) * (u64::MAX as int) <= (u64::MAX as int) * (u64::MAX as int))
                    by (nonlinear_arith)
                    requires
                        0 <= i,
                        i + 1 <= u64::MAX,
                ;
            }
            acc = acc + self.pairs[i].1 as u128;
            i = i + 1;
        }
        proof {
            assert(s0.take(n as int) =~= s0);
        }
        acc
    }

    /// A point-in-time copy of the entries, in insertion order.
    pub fn snapshot(&self) -> (r: Vec<(u64, u64)>)
        ensures
            r@ == self.pairs_view(),
    {
        let n = self.pairs.len();
        let mut out: Vec<(u64, u64)> = Vec::new();
        let mut i: usize = 0;
        while i < n
            invariant
                n == self.pairs@.len(),
                0 <= i <= n,
                out@ == self.pairs@.take(i as int),
            decreases n - i,
        {
            out.push(self.pairs[i]);
            proof {
                assert(out@ =~= self.pairs@.take(i + 1));
            }
            i = i + 1;
        }
        proof {
            assert(self.pairs@.take(n as int) =~= self.pairs@);
        }
        out
    }
}

/// The entries denote exactly `cnt`: each entry carries its own token's
/// count, and a token no entry names counts zero. Together with the
/// serializer's contract this pins the meaning of the persisted document.
pub proof fn lemma_entries_denote_cnt(h: Histogram)
    requires
        h.wf(),
    ensures
        forall|i: int|
            0 <= i < h.pairs_view().len() ==> (#[trigger] h.pairs_view()[i].1) as int == h.cnt(
                h.pairs_view()[i].0,
            ),
        forall|t: u64|
            (forall|i: int| 0 <= i < h.pairs_view().len() ==> (#[trigger] h.pairs_view()[i]).0
                != t) ==> h.cnt(t) == 0,
{
    let s = h.pairs_view();
    assert(distinct_keys(s));
    assert forall|i: int| 0 <= i < s.len() implies (#[trigger] s[i].1) as int == h.cnt(s[i].0) by {
        lemma_pairs_cnt_unique(s, i, s[i].0);
    }
    assert forall|t: u64| (forall|i: int| 0 <= i < s.len() ==> (#[trigger] s[i]).0 != t) implies h.cnt(
        t,
    ) == 0 by {
        lemma_pairs_cnt_absent(s, t);
    }
}

/// A well-formed histogram that counts zero for every token holds no
/// entries at all and has a zero total: no token appears in the output
/// unless it was observed at least once.
pub proof fn lemma_all_zero_empty(h: Histogram)
    requires
        h.wf(),
        forall|t: u64| h.cnt(t) == 0,
    ensures
        h.pairs_view().len() == 0,
        pairs_total(h.pairs_view()) == 0,
{
    let s = h.pairs_view();
    if s.len() > 0 {
        assert(distinct_keys(s));
        assert(positive_counts(s));
        lemma_pairs_cnt_unique(s, 0, s[0].0);
        assert(s[0].1 >= 1);
        assert(h.cnt(s[0].0) >= 1);
        assert(false);
    }
}

/// With pairwise-distinct keys, the pairs give `s[i].0` exactly `s[i].1`.
pub proof fn lemma_pairs_cnt_unique(s: Seq<(u64, u64)>, i: int, t: u64)
    requires
        0 <= i < s.len(),
        s[i].0 == t,
        distinct_keys(s),
    ensures
        pairs_cnt(s, t) == s[i].1,
    decreases s.len(),
{
    if i == s.len() - 1 {
        assert forall|k: int| 0 <= k < s.drop_last().len() implies s.drop_last()[k].0 != t by {
            assert(s[k].0 != s[i].0);
        }
        lemma_pairs_cnt_absent(s.drop_last(), t);
    } else {
        assert forall|a: int, b: int|
            0 <= a < b < s.drop_last().len() implies s.drop_last()[a].0 != s.drop_last()[b].0 by {
            assert(s[a].0 != s[b].0);
        }
        lemma_pairs_cnt_unique(s.drop_last(), i, t);
        assert(s.last().0 != t);
    }
}

/// A token that no pair names has count zero.
pub proof fn lemma_pairs_cnt_absent(s: Seq<(u64, u64)>, t: u64)
    requires
        forall|k: int| 0 <= k < s.len() ==> s[k].0 != t,
    ensures
        pairs_cnt(s, t) == 0,
    decreases s.len(),
{
    if s.len() > 0 {
        assert forall|k: int| 0 <= k < s.drop_last().len() implies s.drop_last()[k].0 != t by {
            assert(s[k].0 != t);
        }
        lemma_pairs_cnt_absent(s.drop_last(), t);
    }
}

/// With distinct keys, the prefix before `i` gives `s[i].0` nothing.
pub proof fn lemma_pairs_cnt_take_absent(s: Seq<(u64, u64)>, i: int, t: u64)
    requires
        0 <= i < s.len(),
        s[i].0 == t,
        distinct_keys(s),
    ensures
        pairs_cnt(s.take(i), t) == 0,
{
    assert forall|k: int| 0 <= k < s.take(i).len() implies s.take(i)[k].0 != t by {
        assert(s.take(i)[k] == s[k]);
        assert(s[k].0 != s[i].0);
    }
    lemma_pairs_cnt_absent(s.take(i), t);
}

/// Extending a prefix by one pair adds that pair's count.
pub proof fn lemma_pairs_cnt_take_step(s: Seq<(u64, u64)>, i: int)
    requires
        0 <= i < s.len(),
    ensures
        forall|t: u64|
            pairs_cnt(s.take(i + 1), t) == pairs_cnt(s.take(i), t) + if s[i].0 == t {
                s[i].1 as int
            } else {
                0int
            },
{
    assert forall|t: u64|
        pairs_cnt(s.take(i + 1), t) == pairs_cnt(s.take(i), t) + (if s[i].0 == t {
            s[i].1 as int
        } else {
            0int
        }) by {
        assert(s.take(i + 1).drop_last() =~= s.take(i));
        assert(s.take(i + 1).last() == s[i]);
    }
}

/// Replacing the pair at `i` by one with the same key changes only that count.
pub proof fn lemma_pairs_cnt_set(s: Seq<(u64, u64)>, i: int, p: (u64, u64))
    requires
        0 <= i < s.len(),
        s[i].0 == p.0,
        distinct_keys(s),
    ensures
        forall|t: u64|
            pairs_cnt(s.update(i, p), t) == pairs_cnt(s, t) + if p.0 == t {
                p.1 - s[i].1
            } else {
                0int
            },
    decreases s.len(),
{
    let s2 = s.update(i, p);
    if i == s.len() - 1 {
        assert(s2.drop_last() =~= s.drop_last());
        assert(s2.last() == p);
        assert(s.last() == s[i]);
    } else {
        assert forall|a: int, b: int|
            0 <= a < b < s.drop_last().len() implies s.drop_last()[a].0 != s.drop_last()[b].0 by {
            assert(s[a].0 != s[b].0);
        }
        lemma_pairs_cnt_set(s.drop_last(), i, p);
        assert(s2.drop_last() =~= s.drop_last().update(i, p));
        assert(s2.last() == s.last());
        assert(s.last().0 != p.0);
        assert forall|t: u64|
            pairs_cnt(s2, t) == pairs_cnt(s, t) + (if p.0 == t {
                p.1 - s[i].1
            } else {
                0int
            }) by {
            assert(pairs_cnt(s2.drop_last(), t) == pairs_cnt(s.drop_last(), t) + if p.0 == t {
                p.1 - s[i].1
            } else {
                0int
            });
        }
    }
}

} // verus!
