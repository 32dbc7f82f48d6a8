//! Rendering the final histogram as a key/value document: each observed
//! token id becomes a decimal-string key mapped to its integer count.
//! `document_bytes` is the authoritative definition of the output format.
use vstd::prelude::*;

use crate::histogram::Histogram;

verus! {

/// Decimal rendering of a non-negative number, most significant digit first.
pub open spec fn dec_bytes(n: int) -> Seq<u8>
    decreases n,
        when n >= 0
{
    if n < 10 {
        seq![(0x30 + n) as u8]
    } else {
        dec_bytes(n / 10).push((0x30 + n % 10) as u8)
    }
}

/// One document entry: the token id as a quoted decimal string, a colon, and
/// the count.
pub open spec fn entry_bytes(p: (u64, u64)) -> Seq<u8> {
    seq![0x22u8] + dec_bytes(p.0 as int) + seq![0x22u8, 0x3au8] + dec_bytes(p.1 as int)
}

/// The entries joined by commas, in order.
pub open spec fn entries_bytes(s: Seq<(u64, u64)>) -> Seq<u8>
    decreases s.len(),
{
    if s.len() == 0 {
        Seq::empty()
    } else if s.len() == 1 {
        entry_bytes(s[0])
    } else {
        entries_bytes(s.drop_last()) + seq![0x2cu8] + entry_bytes(s.last())
    }
}

/// The whole document: the entries between braces.
pub open spec fn document_bytes(s: Seq<(u64, u64)>) -> Seq<u8> {
    seq![0x7bu8] + entries_bytes(s) + seq![0x7du8]
}

/// Appends the decimal rendering of `n`.
fn push_decimal(out: &mut Vec<u8>, n: u64)
    ensures
        final(out)@ == old(out)@ + dec_bytes(n as int),
    decreases n,
{
    if n < 10 {
        out.push(0x30 + n as u8);
        proof {
            assert(final(out)@ =~= old(out)@ + dec_bytes(n as int));
        }
    } else {
        let ghost o0 = out@;
        push_decimal(out, n / 10);
        out.push(0x30 + (n % 10) as u8);
        proof {
            assert(final(out)@ =~= o0 + dec_bytes(n as int));
        }
    }
}

/// Renders the histogram snapshot as the key/value document. The entries
/// appear in the histogram's insertion order; the mapping they denote is the
/// histogram's `cnt`.
pub fn to_document(h: &Histogram) -> (r: Vec<u8>)
    ensures
        r@ == document_bytes(h.pairs_view()),
{
    let pairs = h.snapshot();
    let ghost s = pairs@;
    let mut out: Vec<u8> = Vec::new();
    out.push(0x7b);
    let n = pairs.len();
    let mut i: usize = 0;
    while i < n
        invariant
            s == pairs@,
            n == s.len(),
            0 <= i <= n,
            out@ == seq![0x7bu8] + entries_bytes(s.take(i as int)),
        decreases n - i,
    {
        let ghost o0 = out@;
        if i > 0 {
            out.push(0x2c);
        }
        let p = pairs[i];
        out.push(0x22);
        push_decimal(&mut out, p.0);
        out.push(0x22);
        out.push(0x3a);
        push_decimal(&mut out, p.1);
        proof {
            assert(s.take(i + 1).len() == i + 1);
            assert(s.take(i + 1)[0] == s[0]);
            assert(s.take(i + 1).drop_last() =~= s.take(i as int));
            assert(s.take(i + 1).last() == s[i as int]);
            if i == 0 {
                assert(entries_bytes(s.take(1)) == entry_bytes(s[0]));
                assert(out@ =~= seq![0x7bu8] + entries_bytes(s.take(1)));
            } else {
                assert(entries_bytes(s.take(i + 1)) == entries_bytes(s.take(i as int)) + seq![
                    0x2cu8,
                ] + entry_bytes(s[i as int]));
                assert(out@ =~= seq![0x7bu8] + entries_bytes(s.take(i + 1)));
            }
        }
        i = i + 1;
    }
    out.push(0x7d);
    proof {
        assert(s.take(n as int) =~= s);
        assert(out@ =~= document_bytes(s));
    }
    out
}

} // verus!
