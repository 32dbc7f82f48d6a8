//! The shard container format: a sequence of 512-byte records. Each member is
//! a header record followed by its payload, padded to whole records. A header
//! carries the payload size and a checksum, both as octal text fields. The
//! stream ends at an all-zero record or at the end of the bytes.
//! `members_from` is the authoritative definition; `parse_container`
//! implements it.
use vstd::prelude::*;

verus! {

/// ASCII octal digit.
pub open spec fn is_oct(b: u8) -> bool {
    0x30 <= b && b <= 0x37
}

/// First index at or after `i` that does not hold a space.
pub open spec fn spaces_end(s: Seq<u8>, i: int) -> int
    decreases s.len() - i,
        when 0 <= i <= s.len()
{
    if i < s.len() && s[i] == 0x20 {
        spaces_end(s, i + 1)
    } else {
        i
    }
}

/// First index at or after `i` that does not hold an octal digit.
pub open spec fn oct_end(s: Seq<u8>, i: int) -> int
    decreases s.len() - i,
        when 0 <= i <= s.len()
{
    if i < s.len() && is_oct(s[i]) {
        oct_end(s, i + 1)
    } else {
        i
    }
}

/// Value of the octal digit run `s[i..j]`.
pub open spec fn oct_val(s: Seq<u8>, i: int, j: int) -> int
    decreases j - i,
        when i <= j
{
    if i >= j {
        0
    } else {
        oct_val(s, i, j - 1) * 8 + (s[j - 1] - 0x30)
    }
}

/// Bytes from `j` on are NUL or space padding.
pub open spec fn padding_from(s: Seq<u8>, j: int) -> bool {
    forall|k: int| j <= k < s.len() ==> s[k] == 0 || s[k] == 0x20
}

/// Value of a numeric header field: optional leading spaces, at least one
/// octal digit, then NUL or space padding; the value must fit in `u64`.
pub open spec fn field_val(s: Seq<u8>) -> Option<int> {
    let a = spaces_end(s, 0);
    let j = oct_end(s, a);
    if j > a && padding_from(s, j) && oct_val(s, a, j) <= u64::MAX {
        Some(oct_val(s, a, j))
    } else {
        None
    }
}

/// The record starting at `i` is all zero bytes.
pub open spec fn is_zero_block(b: Seq<u8>, i: int) -> bool {
    forall|k: int| i <= k < i + 512 ==> b[k] == 0
}

/// Sum of the byte values of `b[i..j]`.
pub open spec fn byte_sum(b: Seq<u8>, i: int, j: int) -> int
    decreases j - i,
        when i <= j
{
    if i >= j {
        0
    } else {
        byte_sum(b, i, j - 1) + b[j - 1]
    }
}

/// Checksum of the header record at `i`: the sum of its bytes with the
/// checksum field itself read as eight spaces.
pub open spec fn header_checksum(b: Seq<u8>, i: int) -> int {
    byte_sum(b, i, i + 148) + 8 * 0x20 + byte_sum(b, i + 156, i + 512)
}

/// Payload size announced by the header record at `i`, provided its size and
/// checksum fields are well formed and the checksum matches.
pub open spec fn header_size(b: Seq<u8>, i: int) -> Option<int> {
    match field_val(b.subrange(i + 124, i + 136)) {
        None => None,
        Some(sz) => match field_val(b.subrange(i + 148, i + 156)) {
            None => None,
            Some(ck) => if ck == header_checksum(b, i) {
                Some(sz)
            } else {
                None
            },
        },
    }
}

/// The member payloads of the container bytes from offset `i` on, or `None`
/// where the stream is malformed: a truncated record, a bad numeric field, a
/// checksum mismatch, or a payload running past the end.
pub open spec fn members_from(b: Seq<u8>, i: int) -> Option<Seq<Seq<u8>>>
    decreases b.len() - i,
        when 0 <= i <= b.len()
{
    if i == b.len() {
        Some(Seq::empty())
    } else if i + 512 > b.len() {
        None
    } else if is_zero_block(b, i) {
        Some(Seq::empty())
    } else {
        match header_size(b, i) {
            None => None,
            Some(sz) => {
                if sz < 0 {
                    None
                } else {
                    let data_end = i + 512 + sz;
                    let padded_end = i + 512 + ((sz + 511) / 512) * 512;
                    if !(i + 512 <= padded_end && data_end <= padded_end && padded_end
                        <= b.len()) {
                        None
                    } else {
                        match members_from(b, padded_end) {
                            None => None,
                            Some(rest) => Some(seq![b.subrange(i + 512, data_end)] + rest),
                        }
                    }
                }
            },
        }
    }
}

/// The member payloads of a whole container.
pub open spec fn members_of(b: Seq<u8>) -> Option<Seq<Seq<u8>>> {
    members_from(b, 0)
}

proof fn lemma_oct_val_nonneg(s: Seq<u8>, i: int, j: int)
    requires
        i <= j,
        forall|k: int| i <= k < j ==> is_oct(s[k]),
    ensures
        oct_val(s, i, j) >= 0,
    decreases j - i,
{
    if i < j {
        lemma_oct_val_nonneg(s, i, j - 1);
    }
}

proof fn lemma_oct_val_mono(s: Seq<u8>, i: int, k: int, j: int)
    requires
        i <= k <= j,
        forall|m: int| i <= m < j ==> is_oct(s[m]),
    ensures
        oct_val(s, i, j) >= oct_val(s, i, k),
    decreases j - k,
{
    if k < j {
        lemma_oct_val_mono(s, i, k, j - 1);
        lemma_oct_val_nonneg(s, i, j - 1);
    }
}

/// Copies `b[lo..hi]` into a fresh vector.
fn copy_range(b: &Vec<u8>, lo: usize, hi: usize) -> (r: Vec<u8>)
    requires
        lo <= hi <= b.len(),
    ensures
        r@ == b@.subrange(lo as int, hi as int),
{
    let mut out: Vec<u8> = Vec::new();
    let mut j = lo;
    while j < hi
        invariant
            lo <= j <= hi <= b.len(),
            out@ == b@.subrange(lo as int, j as int),
        decreases hi - j,
    {
        out.push(b[j]);
        proof {
            assert(out@ =~= b@.subrange(lo as int, j + 1));
        }
        j = j + 1;
    }
    out
}

/// Sum of the byte values of `b[lo..hi]`, for ranges within one record.
fn sum_range(b: &Vec<u8>, lo: usize, hi: usize) -> (r: u64)
    requires
        lo <= hi <= b.len(),
        hi - lo <= 512,
    ensures
        r == byte_sum(b@, lo as int, hi as int),
        r <= 512 * 255,
{
    let mut acc: u64 = 0;
    let mut j = lo;
    while j < hi
        invariant
            lo <= j <= hi <= b.len(),
            hi - lo <= 512,
            acc == byte_sum(b@, lo as int, j as int),
            acc <= (j - lo) * 255,
        decreases hi - j,
    {
        acc = acc + b[j] as u64;
        j = j + 1;
    }
    acc
}

/// Reads a numeric header field; `None` exactly where `field_val` gives none.
fn parse_field(f: &Vec<u8>) -> (r: Option<u64>)
    ensures
        match r {
            Some(v) => field_val(f@) == Some(v as int),
            None => field_val(f@) is None,
        },
{
    let ghost gf = f@;
    let mut a: usize = 0;
    while a < f.len() && f[a] == 0x20
        invariant
            gf == f@,
            0 <= a <= f.len(),
            spaces_end(gf, 0) == spaces_end(gf, a as int),
        decreases f.len() - a,
    {
        a = a + 1;
    }
    assert(a == spaces_end(gf, 0));
    let mut j = a;
    while j < f.len() && 0x30 <= f[j] && f[j] <= 0x37
        invariant
            gf == f@,
            a <= j <= f.len(),
            oct_end(gf, a as int) == oct_end(gf, j as int),
            forall|k: int| a <= k < j ==> is_oct(gf[k]),
        decreases f.len() - j,
    {
        j = j + 1;
    }
    assert(j == oct_end(gf, a as int));
    if j == a {
        return None;
    }
    let mut p = j;
    while p < f.len()
        invariant
            gf == f@,
            0 <= a <= j <= p <= f.len(),
            a == spaces_end(gf, 0),
            j == oct_end(gf, a as int),
            j > a,
            forall|k: int| j <= k < p ==> gf[k] == 0 || gf[k] == 0x20,
        decreases f.len() - p,
    {
        if !(f[p] == 0 || f[p] == 0x20) {
            assert(!padding_from(gf, j as int));
            return None;
        }
        p = p + 1;
    }
    assert(padding_from(gf, j as int));
    let mut acc: u64 = 0;
    let mut k = a;
    while k < j
        invariant
            gf == f@,
            0 <= a <= k <= j <= f.len(),
            a == spaces_end(gf, 0),
            j == oct_end(gf, a as int),
            j > a,
            padding_from(gf, j as int),
            forall|m: int| a <= m < j ==> is_oct(gf[m]),
            acc as int == oct_val(gf, a as int, k as int),
        decreases j - k,
    {
        let d: u64 = (f[k] - 0x30) as u64;
        if acc > (u64::MAX - d) / 8 {
            proof {
                assert(8 * ((u64::MAX - d) as u64 / 8) + (u64::MAX - d) as u64 % 8 == (u64::MAX
                - d));
                assert(acc * 8 + d > u64::MAX);
                assert(oct_val(gf, a as int, k + 1) == acc * 8 + d);
                lemma_oct_val_mono(gf, a as int, k + 1, j as int);
            }
            return None;
        }
        proof {
            assert(8 * ((u64::MAX - d) as u64 / 8) + (u64::MAX - d) as u64 % 8 == (u64::MAX
            - d));
        }
        acc = acc * 8 + d;
        k = k + 1;
    }
    Some(acc)
}

/// Reads the payload size of the header record at `i`, validating the size
/// and checksum fields; `None` exactly where `header_size` gives none.
fn read_header_size(b: &Vec<u8>, i: usize) -> (r: Option<u64>)
    requires
        i + 512 <= b.len(),
    ensures
        match r {
            Some(v) => header_size(b@, i as int) == Some(v as int),
            None => header_size(b@, i as int) is None,
        },
{
    let sz_field = copy_range(b, i + 124, i + 136);
    let sz = parse_field(&sz_field);
    match sz {
        None => None,
        Some(sz) => {
            let ck_field = copy_range(b, i + 148, i + 156);
            let ck = parse_field(&ck_field);
            match ck {
                None => None,
                Some(ck) => {
                    let s1 = sum_range(b, i, i + 148);
                    let s2 = sum_range(b, i + 156, i + 512);
                    if ck == s1 + 256 + s2 {
                        Some(sz)
                    } else {
                        None
                    }
                },
            }
        },
    }
}

/// Tests whether the record at `i` is all zero.
fn check_zero_block(b: &Vec<u8>, i: usize) -> (r: bool)
    requires
        i + 512 <= b.len(),
    ensures
        r == is_zero_block(b@, i as int),
{
    let mut j: usize = 0;
    while j < 512
        invariant
            i + 512 <= b.len(),
            0 <= j <= 512,
            forall|k: int| i <= k < i + j ==> b@[k] == 0,
        decreases 512 - j,
    {
        if b[i + j] != 0 {
            assert(!is_zero_block(b@, i as int));
            return false;
        }
        j = j + 1;
    }
    true
}

/// Splits container bytes into member payloads; `None` exactly where the
/// container is malformed (`members_of` gives `None`).
pub fn parse_container(b: &Vec<u8>) -> (r: Option<Vec<Vec<u8>>>)
    ensures
        match r {
            Some(ms) => members_of(b@) == Some(ms.deep_view()),
            None => members_of(b@) is None,
        },
{
    let ghost gb = b@;
    let mut i: usize = 0;
    let mut out: Vec<Vec<u8>> = Vec::new();
    proof {
        assert forall|rest: Seq<Seq<u8>>|
            members_from(gb, 0) == Some(rest) implies members_from(gb, 0) == Some(
            out.deep_view() + rest,
        ) by {
            assert(out.deep_view() + rest =~= rest);
        }
    }
    loop
        invariant
            gb == b@,
            0 <= i <= b.len(),
            forall|rest: Seq<Seq<u8>>|
                members_from(gb, i as int) == Some(rest) ==> members_from(gb, 0) == Some(
                    out.deep_view() + rest,
                ),
            members_from(gb, i as int) is None ==> members_from(gb, 0) is None,
        decreases b.len() - i,
    {
        if i == b.len() {
            proof {
                assert(members_from(gb, i as int) == Some(Seq::<Seq<u8>>::empty()));
                assert(out.deep_view() + Seq::<Seq<u8>>::empty() =~= out.deep_view());
            }
            return Some(out);
        }
        if b.len() - i < 512 {
            assert(members_from(gb, i as int) is None);
            return None;
        }
        if check_zero_block(b, i) {
            proof {
                assert(members_from(gb, i as int) == Some(Seq::<Seq<u8>>::empty()));
                assert(out.deep_view() + Seq::<Seq<u8>>::empty() =~= out.deep_view());
            }
            return Some(out);
        }
        let sz = match read_header_size(b, i) {
            None => {
                assert(members_from(gb, i as int) is None);
                return None;
            },
            Some(sz) => sz,
        };
        let ghost gsz = sz as int;
        let avail: usize = b.len() - i - 512;
        let padded_len: u128 = ((sz as u128 + 511) / 512) * 512;
        proof {
            assert(padded_len == ((gsz + 511) / 512) * 512);
            assert(512 * ((gsz + 511) / 512) + (gsz + 511) % 512 == gsz + 511);
            assert(padded_len >= gsz);
            assert(padded_len >= 0);
        }
        if padded_len > avail as u128 {
            proof {
                let padded_end = i + 512 + ((gsz + 511) / 512) * 512;
                assert(padded_end > gb.len());
                assert(members_from(gb, i as int) is None);
            }
            return None;
        }
        let pl: usize = padded_len as usize;
        let member = copy_range(b, i + 512, i + 512 + sz as usize);
        let ghost old_out = out.deep_view();
        let ghost old_i = i as int;
        out.push(member);
        let next = i + 512 + pl;
        proof {
            let data_end = old_i + 512 + gsz;
            let padded_end = old_i + 512 + ((gsz + 511) / 512) * 512;
            assert(next == padded_end);
            assert(out.deep_view() =~~= old_out.push(member@));
            assert(member@ == gb.subrange(old_i + 512, data_end));
            assert forall|rest: Seq<Seq<u8>>|
                members_from(gb, next as int) == Some(rest) implies members_from(gb, 0) == Some(
                out.deep_view() + rest,
            ) by {
                assert(members_from(gb, old_i) == Some(seq![gb.subrange(old_i + 512, data_end)]
                    + rest));
                assert(out.deep_view() + rest =~= old_out + (seq![gb.subrange(
                    old_i + 512,
                    data_end,
                )] + rest));
            }
            assert(members_from(gb, next as int) is None ==> members_from(gb, old_i) is None);
        }
        i = next;
    }
}

} // verus!
