use vstd::prelude::*;
use crate::Error;
use crate::record::push_all;

verus! {

/// ASCII decimal digits and whitespace, as the merge-finish marker uses.
pub open spec fn is_ascii_digit(b: u8) -> bool {
    48 <= b <= 57
}

pub open spec fn is_ascii_space(b: u8) -> bool {
    b == 32 || b == 9 || b == 10 || b == 13
}

pub open spec fn spec_trim_front(s: Seq<u8>) -> Seq<u8>
    decreases s.len(),
{
    if s.len() > 0 && is_ascii_space(s[0]) {
        spec_trim_front(s.skip(1))
    } else {
        s
    }
}

pub open spec fn spec_trim_back(s: Seq<u8>) -> Seq<u8>
    decreases s.len(),
{
    if s.len() > 0 && is_ascii_space(s.last()) {
        spec_trim_back(s.drop_last())
    } else {
        s
    }
}

/// The numeric value of a digit string, left to right; None on a non-digit.
pub open spec fn spec_digits_val(s: Seq<u8>) -> Option<int>
    decreases s.len(),
{
    if s.len() == 0 {
        Some(0)
    } else if !is_ascii_digit(s.last()) {
        None
    } else {
        match spec_digits_val(s.drop_last()) {
            None => None,
            Some(v) => Some(v * 10 + (s.last() - 48)),
        }
    }
}

/// Parsing the merge-finish marker: ASCII decimal of a u64, surrounding
/// whitespace ignored; None where empty, non-numeric, or out of range.
pub open spec fn spec_parse_decimal(s: Seq<u8>) -> Option<u64> {
    let t = spec_trim_back(spec_trim_front(s));
    if t.len() == 0 {
        None
    } else {
        match spec_digits_val(t) {
            None => None,
            Some(v) => if v <= u64::MAX { Some(v as u64) } else { None },
        }
    }
}

/// The canonical decimal digits of `v`, no sign, no leading zeros.
pub open spec fn spec_format_decimal(v: u64) -> Seq<u8>
    decreases v,
{
    if v < 10 {
        seq![(48 + v) as u8]
    } else {
        spec_format_decimal(v / 10) + seq![(48 + v % 10) as u8]
    }
}

/// Parse an ASCII decimal u64, trimming surrounding whitespace.
pub fn parse_decimal(s: &[u8]) -> (r: Result<u64, Error>)
    ensures
        match r {
            Ok(v) => spec_parse_decimal(s@) == Some(v),
            Err(e) => spec_parse_decimal(s@) is None && e == Error::Corrupt,
        },
{
    let n: usize = s.len();
    let mut a: usize = 0;
    proof {
        assert(s@.skip(0) =~= s@);
    }
    loop
        invariant
            a <= n,
            n == s@.len(),
            spec_trim_front(s@) == spec_trim_front(s@.skip(a as int)),
        ensures
            a <= n,
            spec_trim_front(s@) == s@.skip(a as int),
        decreases n - a,
    {
        if a >= n {
            proof {
                assert(s@.skip(a as int) =~= Seq::<u8>::empty());
                assert(spec_trim_front(s@) =~= s@.skip(a as int));
            }
            break;
        }
        let c: u8 = *vstd::slice::slice_index_get(s, a);
        if !(c == 32 || c == 9 || c == 10 || c == 13) {
            proof {
                assert(s@.skip(a as int)[0] == s@[a as int]);
                assert(spec_trim_front(s@.skip(a as int)) == s@.skip(a as int));
            }
            break;
        }
        proof {
            assert(s@.skip(a as int)[0] == s@[a as int]);
            assert(s@.skip(a as int).skip(1) =~= s@.skip(a + 1));
        }
        a = a + 1;
    }
    proof {
        assert(spec_trim_front(s@) == s@.skip(a as int));
    }
    let mut b: usize = n;
    proof {
        assert(s@.skip(a as int) =~= s@.subrange(a as int, b as int));
    }
    loop
        invariant
            a <= b <= n,
            n == s@.len(),
            spec_trim_front(s@) == s@.skip(a as int),
            spec_trim_back(s@.skip(a as int)) == spec_trim_back(s@.subrange(a as int, b as int)),
        ensures
            a <= b <= n,
            spec_trim_back(s@.skip(a as int)) == s@.subrange(a as int, b as int),
        decreases b,
    {
        if b <= a {
            proof {
                assert(s@.subrange(a as int, b as int) =~= Seq::<u8>::empty());
            }
            break;
        }
        let c: u8 = *vstd::slice::slice_index_get(s, b - 1);
        if !(c == 32 || c == 9 || c == 10 || c == 13) {
            proof {
                assert(s@.subrange(a as int, b as int).last() == s@[b - 1]);
            }
            break;
        }
        proof {
            let t = s@.subrange(a as int, b as int);
            assert(t.last() == s@[b - 1]);
            assert(t.drop_last() =~= s@.subrange(a as int, b - 1));
        }
        b = b - 1;
    }
    let ghost t: Seq<u8> = spec_trim_back(spec_trim_front(s@));
    proof {
        let u = s@.subrange(a as int, b as int);
        if b > a {
            assert(spec_trim_back(u) == u);
        } else {
            assert(u =~= Seq::<u8>::empty());
            assert(spec_trim_back(u) == u);
        }
        assert(t == s@.subrange(a as int, b as int));
    }
    if b == a {
        return Err(Error::Corrupt);
    }
    // parse the digits of s[a..b]
    let mut acc: u64 = 0;
    let mut i: usize = a;
    while i < b
        invariant
            a <= i <= b <= n,
            n == s@.len(),
            t == spec_trim_back(spec_trim_front(s@)),
            t == s@.subrange(a as int, b as int),
            t.len() == b - a,
            spec_digits_val(s@.subrange(a as int, i as int)) == Some(acc as int),
        decreases b - i,
    {
        let c: u8 = *vstd::slice::slice_index_get(s, i);
        if c < 48 || c > 57 {
            proof {
                let pre = s@.subrange(a as int, i + 1);
                assert(pre.last() == c);
                assert(pre.drop_last() =~= s@.subrange(a as int, i as int));
                assert(spec_digits_val(pre) is None);
                assert(t.subrange(0, i - a + 1) =~= pre);
                lemma_digits_prefix_none(t, i - a + 1);
            }
            return Err(Error::Corrupt);
        }
        let d: u64 = (c - 48) as u64;
        if acc > (u64::MAX - d) / 10 {
            proof {
                let pre = s@.subrange(a as int, i + 1);
                assert(pre.last() == c);
                assert(pre.drop_last() =~= s@.subrange(a as int, i as int));
                assert(spec_digits_val(pre) == Some(acc as int * 10 + d));
                assert(acc as int * 10 + d > u64::MAX) by (nonlinear_arith)
                    requires acc > ((u64::MAX - d) / 10), d < 10, acc <= u64::MAX;
                assert(t.subrange(0, i - a + 1) =~= pre);
                lemma_digits_grow(t, i - a + 1);
                if spec_digits_val(t) is Some {
                    assert(spec_digits_val(t).unwrap() > u64::MAX);
                }
            }
            return Err(Error::Corrupt);
        }
        proof {
            let pre = s@.subrange(a as int, i + 1);
            assert(pre.last() == c);
            assert(pre.drop_last() =~= s@.subrange(a as int, i as int));
            assert(acc * 10 + d <= u64::MAX) by (nonlinear_arith)
                requires acc <= ((u64::MAX - d) / 10), d < 10;
        }
        acc = acc * 10 + d;
        i = i + 1;
    }
    proof {
        assert(s@.subrange(a as int, b as int) == t);
    }
    Ok(acc)
}

/// A longer digit string never parses where its prefix already failed.
proof fn lemma_digits_prefix_none(t: Seq<u8>, k: int)
    requires
        0 < k <= t.len(),
        spec_digits_val(t.subrange(0, k)) is None,
    ensures
        spec_digits_val(t) is None,
    decreases t.len() - k,
{
    if k == t.len() {
        assert(t.subrange(0, k) =~= t);
    } else {
        assert(t.subrange(0, k + 1).drop_last() =~= t.subrange(0, k));
        lemma_digits_prefix_none(t, k + 1);
    }
}

/// Digit values never shrink as digits are appended.
proof fn lemma_digits_grow(t: Seq<u8>, k: int)
    requires
        0 < k <= t.len(),
        spec_digits_val(t.subrange(0, k)) is Some || spec_digits_val(t) is None,
    ensures
        spec_digits_val(t) is None
            || spec_digits_val(t).unwrap() >= spec_digits_val(t.subrange(0, k)).unwrap(),
    decreases t.len() - k,
{
    if spec_digits_val(t) is None {
    } else if k == t.len() {
        assert(t.subrange(0, k) =~= t);
    } else {
        assert(t.subrange(0, k + 1).drop_last() =~= t.subrange(0, k));
        let a = spec_digits_val(t.subrange(0, k));
        let b = spec_digits_val(t.subrange(0, k + 1));
        if a is Some {
            if b is Some {
                lemma_digits_nonneg(t.subrange(0, k));
                assert(t.subrange(0, k + 1).last() == t[k]);
                assert(is_ascii_digit(t[k]));
                assert(b.unwrap() == a.unwrap() * 10 + (t[k] - 48));
                assert(a.unwrap() * 10 + (t[k] - 48) >= a.unwrap()) by (nonlinear_arith)
                    requires a.unwrap() >= 0, t[k] >= 48;
                lemma_digits_grow(t, k + 1);
            } else {
                lemma_digits_prefix_none(t, k + 1);
            }
        }
    }
}

/// Digit values are never negative.
proof fn lemma_digits_nonneg(s: Seq<u8>)
    requires
        spec_digits_val(s) is Some,
    ensures
        spec_digits_val(s).unwrap() >= 0,
    decreases s.len(),
{
    if s.len() > 0 {
        lemma_digits_nonneg(s.drop_last());
        assert(spec_digits_val(s).unwrap()
            == spec_digits_val(s.drop_last()).unwrap() * 10 + (s.last() - 48));
        assert(spec_digits_val(s.drop_last()).unwrap() * 10 >= 0) by (nonlinear_arith)
            requires spec_digits_val(s.drop_last()).unwrap() >= 0;
    }
}

/// The canonical decimal digits of `v`, as bytes.
pub fn format_decimal(v: u64) -> (r: Vec<u8>)
    ensures
        r@ == spec_format_decimal(v),
{
    let mut digits: Vec<u8> = Vec::new();
    let mut rest: u64 = v;
    proof {
        assert(spec_format_decimal(v) =~= spec_format_decimal(rest) + digits@);
    }
    loop
        invariant
            spec_format_decimal(v) == spec_format_decimal(rest) + digits@,
        decreases rest,
    {
        let ghost rest0: u64 = rest;
        let ghost digits0: Seq<u8> = digits@;
        let d: u8 = (rest % 10) as u8 + 48;
        if rest < 10 {
            let mut out: Vec<u8> = Vec::new();
            out.push(d);
            push_all(&mut out, digits.as_slice());
            proof {
                assert(spec_format_decimal(rest) == seq![(48 + rest) as u8]);
                assert(out@ =~= spec_format_decimal(rest) + digits0);
            }
            return out;
        }
        let mut out: Vec<u8> = Vec::new();
        out.push(d);
        push_all(&mut out, digits.as_slice());
        digits = out;
        rest = rest / 10;
        proof {
            assert(spec_format_decimal(rest0)
                == spec_format_decimal(rest) + seq![(48 + rest0 % 10) as u8]);
            assert(digits@ =~= seq![(48 + rest0 % 10) as u8] + digits0);
            assert(spec_format_decimal(rest) + digits@
                =~= (spec_format_decimal(rest) + seq![(48 + rest0 % 10) as u8]) + digits0);
        }
    }
}

/// Every canonical digit byte is an ASCII digit, and never zero.
pub proof fn lemma_format_decimal_digits(v: u64)
    ensures
        spec_format_decimal(v).len() >= 1,
        forall|i: int| 0 <= i < spec_format_decimal(v).len()
            ==> is_ascii_digit(#[trigger] spec_format_decimal(v)[i])
                && spec_format_decimal(v)[i] != 0,
    decreases v,
{
    if v >= 10 {
        lemma_format_decimal_digits(v / 10);
    }
}

/// Canonical digits parse back to the value they were formatted from.
pub proof fn lemma_decimal_round_trip(v: u64)
    ensures
        spec_parse_decimal(spec_format_decimal(v)) == Some(v),
{
    let s = spec_format_decimal(v);
    lemma_format_decimal_digits(v);
    assert(spec_trim_front(s) == s);
    assert(spec_trim_back(s) == s);
    lemma_format_digits_val(v);
}

/// The position of the first zero byte, which separates the segment name
/// from the offset in a hint value.
pub open spec fn spec_first_zero(v: Seq<u8>) -> Option<int>
    decreases v.len(),
{
    if v.len() == 0 {
        None
    } else if v[0] == 0 {
        Some(0)
    } else {
        match spec_first_zero(v.skip(1)) {
            None => None,
            Some(i) => Some(i + 1),
        }
    }
}

pub proof fn lemma_first_zero(v: Seq<u8>)
    ensures
        match spec_first_zero(v) {
            Some(p) => 0 <= p < v.len() && v[p] == 0
                && forall|j: int| 0 <= j < p ==> v[j] != 0,
            None => forall|j: int| 0 <= j < v.len() ==> v[j] != 0,
        },
    decreases v.len(),
{
    if v.len() > 0 && v[0] != 0 {
        lemma_first_zero(v.skip(1));
        assert forall|j: int| 0 <= j < v.len() && (spec_first_zero(v) is None
            || j < spec_first_zero(v).unwrap()) implies v[j] != 0 by {
            if j > 0 {
                assert(v.skip(1)[j - 1] == v[j]);
            }
        }
    }
}

pub proof fn lemma_first_zero_at(v: Seq<u8>, p: int)
    requires
        0 <= p < v.len(),
        v[p] == 0,
        forall|j: int| 0 <= j < p ==> v[j] != 0,
    ensures
        spec_first_zero(v) == Some(p),
{
    lemma_first_zero(v);
    match spec_first_zero(v) {
        Some(q) => {
            if q < p {
                assert(v[q] != 0);
            }
            if q > p {
                assert(v[p] != 0);
            }
        },
        None => {
            assert(v[p] != 0);
        },
    }
}

/// A u64 from eight little-endian bytes.
pub open spec fn spec_u64_le(s: Seq<u8>) -> u64 {
    (s[0] as u64)
        | (s[1] as u64) << 8u64
        | (s[2] as u64) << 16u64
        | (s[3] as u64) << 24u64
        | (s[4] as u64) << 32u64
        | (s[5] as u64) << 40u64
        | (s[6] as u64) << 48u64
        | (s[7] as u64) << 56u64
}

/// The eight little-endian bytes of a u64.
pub open spec fn spec_le_bytes(v: u64) -> Seq<u8> {
    seq![
        v as u8,
        (v >> 8u64) as u8,
        (v >> 16u64) as u8,
        (v >> 24u64) as u8,
        (v >> 32u64) as u8,
        (v >> 40u64) as u8,
        (v >> 48u64) as u8,
        (v >> 56u64) as u8,
    ]
}

/// A hint record's value: the decimal segment name, a zero separator, then
/// the record offset as eight little-endian bytes.  Segment names are
/// decimal digits, so they hold no zero byte.
pub open spec fn spec_encode_hint_value(seg: u64, off: u64) -> Seq<u8> {
    spec_format_decimal(seg) + seq![0u8] + spec_le_bytes(off)
}

/// Decoding a hint value: the segment index and the offset, or None where
/// the separator is missing, the name is not a decimal u64, or the offset
/// field is not exactly eight bytes.
pub open spec fn spec_decode_hint_value(v: Seq<u8>) -> Option<(u64, u64)> {
    match spec_first_zero(v) {
        None => None,
        Some(p) => {
            let name = v.take(p);
            let rest = v.skip(p + 1);
            if name.len() == 0 || rest.len() != 8 {
                None
            } else {
                match spec_digits_val(name) {
                    None => None,
                    Some(x) => if x <= u64::MAX {
                        Some((x as u64, spec_u64_le(rest)))
                    } else {
                        None
                    },
                }
            }
        },
    }
}

/// Append the encoded hint value for a locator.
pub fn encode_hint_value(seg: u64, off: u64, out: &mut Vec<u8>)
    ensures
        final(out)@ == old(out)@ + spec_encode_hint_value(seg, off),
{
    let digits = format_decimal(seg);
    push_all(out, digits.as_slice());
    out.push(0);
    out.push(#[verifier::truncate] (off as u8));
    out.push(#[verifier::truncate] ((off >> 8) as u8));
    out.push(#[verifier::truncate] ((off >> 16) as u8));
    out.push(#[verifier::truncate] ((off >> 24) as u8));
    out.push(#[verifier::truncate] ((off >> 32) as u8));
    out.push(#[verifier::truncate] ((off >> 40) as u8));
    out.push(#[verifier::truncate] ((off >> 48) as u8));
    out.push(#[verifier::truncate] ((off >> 56) as u8));
    proof {
        assert(out@ =~= old(out)@ + spec_encode_hint_value(seg, off));
    }
}

/// Decode a hint value, mirroring `spec_decode_hint_value`.
pub fn decode_hint_value(v: &[u8]) -> (r: Result<(u64, u64), Error>)
    ensures
        match r {
            Ok((seg, off)) => spec_decode_hint_value(v@) == Some((seg, off)),
            Err(e) => spec_decode_hint_value(v@) is None && e == Error::Corrupt,
        },
{
    let n: usize = v.len();
    let mut p: usize = 0;
    loop
        invariant
            p <= n,
            n == v@.len(),
            forall|j: int| 0 <= j < p ==> v@[j] != 0,
        ensures
            p <= n,
            forall|j: int| 0 <= j < p ==> v@[j] != 0,
            p < n ==> v@[p as int] == 0 && spec_first_zero(v@) == Some(p as int),
            p == n ==> spec_first_zero(v@) is None,
        decreases n - p,
    {
        if p >= n {
            proof {
                lemma_first_zero(v@);
                if spec_first_zero(v@) is Some {
                    assert(v@[spec_first_zero(v@).unwrap()] != 0);
                }
            }
            break;
        }
        if *vstd::slice::slice_index_get(v, p) == 0 {
            proof {
                lemma_first_zero_at(v@, p as int);
            }
            break;
        }
        p = p + 1;
    }
    if p >= n {
        return Err(Error::Corrupt);
    }
    if p == 0 || n - (p + 1) != 8 {
        return Err(Error::Corrupt);
    }
    // the decimal name
    let name: &[u8] = vstd::slice::slice_subrange(v, 0, p);
    proof {
        assert(name@ =~= v@.take(p as int));
    }
    let mut acc: u64 = 0;
    let mut i: usize = 0;
    while i < p
        invariant
            i <= p < n == v@.len(),
            1 <= p,
            n - (p + 1) == 8,
            spec_first_zero(v@) == Some(p as int),
            name@ == v@.take(p as int),
            name@.len() == p,
            spec_digits_val(name@.take(i as int)) == Some(acc as int),
        decreases p - i,
    {
        let c: u8 = *vstd::slice::slice_index_get(v, i);
        proof {
            let pre = name@.take(i + 1);
            assert(pre.last() == name@[i as int]);
            assert(name@[i as int] == v@[i as int]);
            assert(pre.drop_last() =~= name@.take(i as int));
        }
        if c < 48 || c > 57 {
            proof {
                assert(spec_digits_val(name@.take(i + 1)) is None);
                assert(name@.take(i + 1) =~= name@.subrange(0, i + 1));
                lemma_digits_prefix_none(name@, i + 1);
            }
            return Err(Error::Corrupt);
        }
        let d: u64 = (c - 48) as u64;
        if acc > (u64::MAX - d) / 10 {
            proof {
                assert(spec_digits_val(name@.take(i + 1)) == Some(acc as int * 10 + d));
                assert(acc as int * 10 + d > u64::MAX) by (nonlinear_arith)
                    requires acc > ((u64::MAX - d) / 10), d < 10, acc <= u64::MAX;
                assert(name@.take(i + 1) =~= name@.subrange(0, i + 1));
                lemma_digits_grow(name@, i + 1);
                if spec_digits_val(name@) is Some {
                    assert(spec_digits_val(name@).unwrap() > u64::MAX);
                }
            }
            return Err(Error::Corrupt);
        }
        proof {
            assert(acc * 10 + d <= u64::MAX) by (nonlinear_arith)
                requires acc <= ((u64::MAX - d) / 10), d < 10;
        }
        acc = acc * 10 + d;
        i = i + 1;
    }
    proof {
        assert(name@.take(p as int) =~= name@);
    }
    // the eight offset bytes
    let b0 = *vstd::slice::slice_index_get(v, p + 1);
    let b1 = *vstd::slice::slice_index_get(v, p + 2);
    let b2 = *vstd::slice::slice_index_get(v, p + 3);
    let b3 = *vstd::slice::slice_index_get(v, p + 4);
    let b4 = *vstd::slice::slice_index_get(v, p + 5);
    let b5 = *vstd::slice::slice_index_get(v, p + 6);
    let b6 = *vstd::slice::slice_index_get(v, p + 7);
    let b7 = *vstd::slice::slice_index_get(v, p + 8);
    let off: u64 = (b0 as u64)
        | (b1 as u64) << 8
        | (b2 as u64) << 16
        | (b3 as u64) << 24
        | (b4 as u64) << 32
        | (b5 as u64) << 40
        | (b6 as u64) << 48
        | (b7 as u64) << 56;
    proof {
        let rest = v@.skip(p + 1);
        assert(rest.len() == 8);
        assert(rest[0] == b0 && rest[1] == b1 && rest[2] == b2 && rest[3] == b3
            && rest[4] == b4 && rest[5] == b5 && rest[6] == b6 && rest[7] == b7);
        assert(spec_u64_le(rest) == off);
    }
    Ok((acc, off))
}

/// A hint value decodes back to the locator it was encoded from.
pub proof fn lemma_hint_value_round_trip(seg: u64, off: u64)
    ensures
        spec_decode_hint_value(spec_encode_hint_value(seg, off)) == Some((seg, off)),
{
    let enc = spec_encode_hint_value(seg, off);
    let digits = spec_format_decimal(seg);
    let p = digits.len() as int;
    lemma_format_decimal_digits(seg);
    assert(enc[p] == 0);
    assert forall|j: int| 0 <= j < p implies enc[j] != 0 by {
        assert(enc[j] == digits[j]);
    }
    lemma_first_zero_at(enc, p);
    assert(enc.take(p) =~= digits);
    let rest = enc.skip(p + 1);
    assert(rest =~= spec_le_bytes(off));
    lemma_format_digits_val(seg);
    let b0 = rest[0];
    let b1 = rest[1];
    let b2 = rest[2];
    let b3 = rest[3];
    let b4 = rest[4];
    let b5 = rest[5];
    let b6 = rest[6];
    let b7 = rest[7];
    assert(((b0 as u64)
        | (b1 as u64) << 8u64
        | (b2 as u64) << 16u64
        | (b3 as u64) << 24u64
        | (b4 as u64) << 32u64
        | (b5 as u64) << 40u64
        | (b6 as u64) << 48u64
        | (b7 as u64) << 56u64) == off) by (bit_vector)
        requires
            b0 == off as u8,
            b1 == (off >> 8u64) as u8,
            b2 == (off >> 16u64) as u8,
            b3 == (off >> 24u64) as u8,
            b4 == (off >> 32u64) as u8,
            b5 == (off >> 40u64) as u8,
            b6 == (off >> 48u64) as u8,
            b7 == (off >> 56u64) as u8,
    ;
}

proof fn lemma_format_digits_val(v: u64)
    ensures
        spec_digits_val(spec_format_decimal(v)) == Some(v as int),
    decreases v,
{
    let s = spec_format_decimal(v);
    vstd::arithmetic::div_mod::lemma_fundamental_div_mod(v as int, 10);
    if v < 10 {
        assert(s == seq![(48 + v) as u8]);
        assert(is_ascii_digit(s.last()));
        assert(s.drop_last() =~= Seq::<u8>::empty());
        assert(spec_digits_val(s.drop_last()) == Some(0int));
        assert(spec_digits_val(s) == Some(0int * 10 + ((48 + v) as u8 - 48)));
    } else {
        lemma_format_decimal_digits(v);
        lemma_format_digits_val(v / 10);
        assert(s == spec_format_decimal(v / 10) + seq![(48 + v % 10) as u8]);
        assert(s.drop_last() =~= spec_format_decimal(v / 10));
        assert(s.last() == (48 + v % 10) as u8);
        assert(is_ascii_digit(s.last()));
        assert(spec_digits_val(s) == Some((v / 10) as int * 10 + ((48 + v % 10) as u8 - 48)));
    }
}

} // verus!
