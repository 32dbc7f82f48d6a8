//! Grammar of a decompressed document payload: a bracketed, comma-separated
//! list of non-negative decimal integers, with optional whitespace, as text.
//! `tokens_of` is the authoritative definition; `parse_tokens` implements it.
use vstd::prelude::*;

verus! {

/// Number of occurrences of `t` in the token sequence `toks`.
pub open spec fn occ(toks: Seq<u64>, t: u64) -> int
    decreases toks.len(),
{
    if toks.len() == 0 {
        0
    } else {
        occ(toks.drop_last(), t) + if toks.last() == t {
            1int
        } else {
            0int
        }
    }
}

pub proof fn lemma_occ_nonneg(toks: Seq<u64>, t: u64)
    ensures
        occ(toks, t) >= 0,
    decreases toks.len(),
{
    if toks.len() > 0 {
        lemma_occ_nonneg(toks.drop_last(), t);
    }
}

/// Extending a prefix by one token raises only that token's tally.
pub proof fn lemma_occ_take_step(toks: Seq<u64>, k: int)
    requires
        0 <= k < toks.len(),
    ensures
        forall|t: u64|
            occ(toks.take(k + 1), t) == occ(toks.take(k), t) + if toks[k] == t {
                1int
            } else {
                0int
            },
{
    assert forall|t: u64|
        occ(toks.take(k + 1), t) == occ(toks.take(k), t) + (if toks[k] == t {
            1int
        } else {
            0int
        }) by {
        assert(toks.take(k + 1).drop_last() =~= toks.take(k));
        assert(toks.take(k + 1).last() == toks[k]);
    }
}

/// A prefix never tallies more occurrences than the whole sequence.
pub proof fn lemma_occ_take_mono(toks: Seq<u64>, k: int, t: u64)
    requires
        0 <= k <= toks.len(),
    ensures
        occ(toks, t) >= occ(toks.take(k), t),
    decreases toks.len() - k,
{
    if k == toks.len() {
        assert(toks.take(k) =~= toks);
    } else {
        lemma_occ_take_step(toks, k);
        lemma_occ_take_mono(toks, k + 1, t);
        lemma_occ_nonneg(toks.take(k + 1), t);
        assert(occ(toks.take(k + 1), t) >= occ(toks.take(k), t));
    }
}

/// `occ` is the multiset count: how often a document's tokens are counted
/// depends only on the multiset of token ids it holds.
pub proof fn lemma_occ_is_multiset_count(toks: Seq<u64>, t: u64)
    ensures
        occ(toks, t) == toks.to_multiset().count(t),
    decreases toks.len(),
{
    broadcast use vstd::seq_lib::group_to_multiset_ensures;
    broadcast use vstd::multiset::group_multiset_axioms;

    if toks.len() == 0 {
        assert(toks.to_multiset().count(t) == 0);
    } else {
        lemma_occ_is_multiset_count(toks.drop_last(), t);
        assert(toks.drop_last().push(toks.last()) =~= toks);
        assert(toks.drop_last().push(toks.last()).to_multiset() =~= toks.drop_last().to_multiset()
            .insert(toks.last()));
        assert(toks.drop_last().to_multiset().insert(toks.last()).count(t) == toks.drop_last()
            .to_multiset().count(t) + if toks.last() == t {
            1int
        } else {
            0int
        });
    }
}

/// Whitespace accepted between tokens of the payload text.
pub open spec fn is_ws(b: u8) -> bool {
    b == 0x20 || b == 0x09 || b == 0x0a || b == 0x0d
}

/// ASCII decimal digit.
pub open spec fn is_digit(b: u8) -> bool {
    0x30 <= b && b <= 0x39
}

/// First index at or after `i` that does not hold whitespace.
pub open spec fn ws_end(s: Seq<u8>, i: int) -> int
    decreases s.len() - i,
        when 0 <= i <= s.len()
{
    if i < s.len() && is_ws(s[i]) {
        ws_end(s, i + 1)
    } else {
        i
    }
}

/// First index at or after `i` that does not hold a digit.
pub open spec fn digits_end(s: Seq<u8>, i: int) -> int
    decreases s.len() - i,
        when 0 <= i <= s.len()
{
    if i < s.len() && is_digit(s[i]) {
        digits_end(s, i + 1)
    } else {
        i
    }
}

/// Value of the decimal digit run `s[i..j]`.
pub open spec fn digits_val(s: Seq<u8>, i: int, j: int) -> int
    decreases j - i,
        when i <= j
{
    if i >= j {
        0
    } else {
        digits_val(s, i, j - 1) * 10 + (s[j - 1] - 0x30)
    }
}

/// A token stands at `i`: at least one digit, no redundant leading zero,
/// and a value that fits in a token id.
pub open spec fn token_at(s: Seq<u8>, i: int) -> bool {
    let j = digits_end(s, i);
    &&& j > i
    &&& (s[i] != 0x30 || j == i + 1)
    &&& digits_val(s, i, j) <= u64::MAX
}

/// Tokens of the rest of the list, an integer expected at `i`, `acc` already read.
pub open spec fn items_from(s: Seq<u8>, i: int, acc: Seq<u64>) -> Option<Seq<u64>>
    decreases s.len() - i,
        when 0 <= i <= s.len()
{
    if !token_at(s, i) {
        None
    } else {
        let j = digits_end(s, i);
        let acc2 = acc.push(digits_val(s, i, j) as u64);
        let k = ws_end(s, j);
        if k < s.len() && s[k] == 0x2c {
            let m = ws_end(s, k + 1);
            if i < m && m <= s.len() {
                items_from(s, m, acc2)
            } else {
                None
            }
        } else if k < s.len() && s[k] == 0x5d {
            if ws_end(s, k + 1) == s.len() {
                Some(acc2)
            } else {
                None
            }
        } else {
            None
        }
    }
}

/// The token sequence encoded by a payload, or `None` where the payload is
/// not a list of integers.
pub open spec fn tokens_of(s: Seq<u8>) -> Option<Seq<u64>> {
    let i0 = ws_end(s, 0);
    if i0 < s.len() && s[i0] == 0x5b {
        let i1 = ws_end(s, i0 + 1);
        if i1 < s.len() && s[i1] == 0x5d {
            if ws_end(s, i1 + 1) == s.len() {
                Some(Seq::empty())
            } else {
                None
            }
        } else {
            items_from(s, i1, Seq::empty())
        }
    } else {
        None
    }
}

pub proof fn lemma_digits_val_nonneg(s: Seq<u8>, i: int, j: int)
    requires
        i <= j,
        forall|k: int| i <= k < j ==> is_digit(s[k]),
    ensures
        digits_val(s, i, j) >= 0,
    decreases j - i,
{
    if i < j {
        lemma_digits_val_nonneg(s, i, j - 1);
    }
}

/// Appending further digits never shrinks the value of a digit run.
pub proof fn lemma_digits_val_mono(s: Seq<u8>, i: int, k: int, j: int)
    requires
        i <= k <= j,
        forall|m: int| i <= m < j ==> is_digit(s[m]),
    ensures
        digits_val(s, i, j) >= digits_val(s, i, k),
    decreases j - k,
{
    if k < j {
        lemma_digits_val_mono(s, i, k, j - 1);
        lemma_digits_val_nonneg(s, i, j - 1);
    }
}

fn skip_ws(s: &Vec<u8>, i: usize) -> (r: usize)
    requires
        i <= s.len(),
    ensures
        r == ws_end(s@, i as int),
        i <= r <= s.len(),
{
    let mut j = i;
    while j < s.len() && (s[j] == 0x20 || s[j] == 0x09 || s[j] == 0x0a || s[j] == 0x0d)
        invariant
            i <= j <= s.len(),
            ws_end(s@, i as int) == ws_end(s@, j as int),
        decreases s.len() - j,
    {
        j = j + 1;
    }
    j
}

/// Reads one non-negative decimal integer at `i`; `None` where none stands
/// there, the form has a redundant leading zero, or the value exceeds `u64`.
fn parse_u64_at(s: &Vec<u8>, i: usize) -> (r: Option<(u64, usize)>)
    requires
        i <= s.len(),
    ensures
        match r {
            Some(p) => {
                &&& token_at(s@, i as int)
                &&& p.1 == digits_end(s@, i as int)
                &&& p.0 as int == digits_val(s@, i as int, p.1 as int)
                &&& i < p.1 <= s.len()
            },
            None => !token_at(s@, i as int),
        },
{
    let ghost gs = s@;
    let mut j = i;
    while j < s.len() && 0x30 <= s[j] && s[j] <= 0x39
        invariant
            gs == s@,
            i <= j <= s.len(),
            digits_end(gs, i as int) == digits_end(gs, j as int),
            forall|k: int| i <= k < j ==> is_digit(gs[k]),
        decreases s.len() - j,
    {
        j = j + 1;
    }
    assert(j == digits_end(gs, i as int));
    if j == i {
        return None;
    }
    if s[i] == 0x30 && j > i + 1 {
        return None;
    }
    let mut acc: u64 = 0;
    let mut k = i;
    while k < j
        invariant
            gs == s@,
            i <= k <= j <= s.len(),
            j == digits_end(gs, i as int),
            forall|m: int| i <= m < j ==> is_digit(gs[m]),
            acc as int == digits_val(gs, i as int, k as int),
        decreases j - k,
    {
        let d: u64 = (s[k] - 0x30) as u64;
        if acc > (u64::MAX - d) / 10 {
            proof {
                assert(10 * ((u64::MAX - d) as u64 / 10) + (u64::MAX - d) as u64 % 10 == (
                u64::MAX - d));
                assert(acc * 10 + d > u64::MAX);
                assert(digits_val(gs, i as int, k + 1) == acc * 10 + d);
                lemma_digits_val_mono(gs, i as int, k + 1, j as int);
            }
            return None;
        }
        proof {
            assert(10 * ((u64::MAX - d) as u64 / 10) + (u64::MAX - d) as u64 % 10 == (u64::MAX
            - d));
        }
        acc = acc * 10 + d;
        k = k + 1;
    }
    Some((acc, j))
}

/// Parses a payload as a list of token ids; `None` exactly where the bytes do
/// not encode such a list (`tokens_of` gives `None`).
pub fn parse_tokens(s: &Vec<u8>) -> (r: Option<Vec<u64>>)
    ensures
        match r {
            Some(v) => tokens_of(s@) == Some(v@),
            None => tokens_of(s@) is None,
        },
{
    let ghost gs = s@;
    let i0 = skip_ws(s, 0);
    if !(i0 < s.len() && s[i0] == 0x5b) {
        return None;
    }
    let i1 = skip_ws(s, i0 + 1);
    if i1 < s.len() && s[i1] == 0x5d {
        if skip_ws(s, i1 + 1) == s.len() {
            let out: Vec<u64> = Vec::new();
            assert(tokens_of(gs) == Some(out@));
            return Some(out);
        } else {
            return None;
        }
    }
    let mut i = i1;
    let mut out: Vec<u64> = Vec::new();
    proof {
        assert(tokens_of(gs) == items_from(gs, i1 as int, Seq::<u64>::empty()));
    }
    loop
        invariant
            0 <= i <= s.len(),
            gs == s@,
            tokens_of(gs) == items_from(gs, i as int, out@),
        decreases s.len() - i,
    {
        match parse_u64_at(s, i) {
            None => {
                return None;
            },
            Some(p) => {
                let (v, j) = p;
                let ghost old_out = out@;
                let ghost old_i = i as int;
                out.push(v);
                let k = skip_ws(s, j);
                if k < s.len() && s[k] == 0x2c {
                    let m = skip_ws(s, k + 1);
                    proof {
                        assert(items_from(gs, old_i, old_out) == items_from(gs, m as int, out@));
                    }
                    i = m;
                } else if k < s.len() && s[k] == 0x5d {
                    if skip_ws(s, k + 1) == s.len() {
                        assert(items_from(gs, old_i, old_out) == Some(out@));
                        return Some(out);
                    } else {
                        return None;
                    }
                } else {
                    return None;
                }
            },
        }
    }
}

} // verus!
