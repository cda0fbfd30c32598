use vstd::prelude::*;
use crate::Error;

verus! {

/// Unsigned little-endian base-128 encoding of a 64-bit value: seven payload
/// bits per byte, high bit set on every byte but the last.  Zero encodes as a
/// single zero byte.
pub open spec fn spec_varint(v: u64) -> Seq<u8>
    decreases v,
{
    if v < 128 {
        seq![v as u8]
    } else {
        seq![(v as u8) | 0x80] + spec_varint(v / 128)
    }
}

/// 128 to the power `k`.
pub open spec fn pow128(k: nat) -> int
    decreases k,
{
    if k == 0 {
        1
    } else {
        128 * pow128((k - 1) as nat)
    }
}

proof fn lemma_pow128_pos(k: nat)
    ensures
        pow128(k) >= 1,
    decreases k,
{
    if k > 0 {
        lemma_pow128_pos((k - 1) as nat);
    }
}

proof fn lemma_spec_varint_len_bounded(v: u64, k: nat)
    requires
        1 <= k,
        v < pow128(k),
    ensures
        spec_varint(v).len() <= k,
    decreases k,
{
    if v < 128 {
    } else {
        assert(pow128(0) == 1);
        assert(pow128(1) == 128);
        assert(k >= 2);
        lemma_pow128_pos((k - 1) as nat);
        assert(v / 128 < pow128((k - 1) as nat)) by (nonlinear_arith)
            requires
                v < pow128(k),
                pow128(k) == 128 * pow128((k - 1) as nat),
                pow128((k - 1) as nat) >= 1,
        ;
        lemma_spec_varint_len_bounded(v / 128, (k - 1) as nat);
    }
}

pub proof fn lemma_spec_varint_len(v: u64)
    ensures
        1 <= spec_varint(v).len() <= 10,
{
    reveal_with_fuel(pow128, 11);
    assert(pow128(10) == 1180591620717411303424);
    lemma_spec_varint_len_bounded(v, 10);
}

/// One step of bounded varint decoding, mirroring the executable decoder:
/// `taken` bytes already consumed, accumulator `acc`, next payload bits go at
/// bit position `shift`.  Fails (None) on end of input, on a missing
/// terminator within ten bytes, and on payload bits past bit 63.
pub open spec fn spec_decode_varint_rec(data: Seq<u8>, o: int, taken: int, shift: u64, acc: u64)
    -> Option<(u64, int)>
    decreases 10 - taken,
{
    if taken >= 10 {
        None
    } else if o < 0 || o >= data.len() {
        None
    } else {
        let b = data[o];
        if shift == 63 && (b & 0x7f) > 1 {
            None
        } else {
            let acc2 = acc | (((b & 0x7f) as u64) << shift);
            if b & 0x80 == 0 {
                Some((acc2, taken + 1))
            } else {
                spec_decode_varint_rec(data, o + 1, taken + 1, (shift + 7) as u64, acc2)
            }
        }
    }
}

/// Decoding `data` from offset `o`: the value and the number of bytes consumed,
/// or None where the bytes do not hold a well-formed bounded varint.
pub open spec fn spec_decode_varint(data: Seq<u8>, o: int) -> Option<(u64, int)> {
    spec_decode_varint_rec(data, o, 0, 0, 0)
}

/// Encode `v` as a varint, appended to a fresh vector.
pub fn encode_varint_to_vec(v: u64) -> (r: Result<Vec<u8>, Error>)
    ensures
        r is Ok,
        r.unwrap()@ == spec_varint(v),
{
    let mut out: Vec<u8> = Vec::new();
    encode_varint(v, &mut out)?;
    Ok(out)
}

/// Encode `v` as a varint, appended to `w`.
pub fn encode_varint(v: u64, w: &mut Vec<u8>) -> (r: Result<(), Error>)
    ensures
        r is Ok,
        final(w)@ == old(w)@ + spec_varint(v),
{
    let ghost orig: Seq<u8> = w@;
    let mut rest: u64 = v;
    loop
        invariant
            orig == old(w)@,
            orig + spec_varint(v) == w@ + spec_varint(rest),
        decreases rest,
    {
        proof {
            if rest >= 128 {
                assert(spec_varint(rest) == seq![(rest as u8) | 0x80] + spec_varint(rest / 128));
                assert(((rest & 0x7f) as u8) | 0x80 == (rest as u8) | 0x80) by (bit_vector);
                assert(rest >> 7 == rest / 128) by (bit_vector);
            } else {
                assert(spec_varint(rest) == seq![rest as u8]);
                assert((rest & 0x7f) as u8 == rest as u8) by (bit_vector)
                    requires rest < 128;
            }
        }
        let b: u8 = #[verifier::truncate] ((rest & 0x7f) as u8);
        if rest < 128 {
            w.push(b);
            proof {
                assert(orig + spec_varint(v) =~= w@);
            }
            return Ok(());
        }
        w.push(b | 0x80);
        rest = rest >> 7;
        proof {
            assert(orig + spec_varint(v) =~= w@ + spec_varint(rest));
        }
    }
}

/// Decode a varint from `data` starting at `start`; on success the value and
/// the number of bytes consumed.  Fails with `Corrupt` exactly where the spec
/// decoder fails: truncated input, no terminator within ten bytes, or payload
/// bits past bit 63.
pub fn decode_varint(data: &[u8], start: usize) -> (r: Result<(u64, usize), Error>)
    ensures
        match r {
            Ok((v, n)) => spec_decode_varint(data@, start as int) == Some((v, n as int))
                && 1 <= n <= 10 && start + n <= data@.len(),
            Err(e) => spec_decode_varint(data@, start as int) is None && e == Error::Corrupt,
        },
{
    let mut acc: u64 = 0;
    let mut shift: u64 = 0;
    let mut taken: usize = 0;
    let mut o: usize = start;
    loop
        invariant
            o == start + taken,
            shift == 7 * taken,
            taken <= 9,
            spec_decode_varint(data@, start as int)
                == spec_decode_varint_rec(data@, o as int, taken as int, shift, acc),
        decreases 10 - taken,
    {
        if o >= data.len() {
            return Err(Error::Corrupt);
        }
        let b: u8 = data[o];
        if shift == 63 && (b & 0x7f) > 1 {
            return Err(Error::Corrupt);
        }
        let ghost acc0: u64 = acc;
        acc = acc | (((b & 0x7f) as u64) << shift);
        if b & 0x80 == 0 {
            return Ok((acc, taken + 1));
        }
        proof {
            assert(spec_decode_varint_rec(data@, o as int, taken as int, shift, acc0)
                == spec_decode_varint_rec(data@, o + 1, taken + 1, (shift + 7) as u64, acc));
        }
        taken = taken + 1;
        o = o + 1;
        if taken == 10 {
            proof {
                assert(spec_decode_varint_rec(data@, o as int, taken as int, (shift + 7) as u64, acc) is None);
            }
            return Err(Error::Corrupt);
        }
        shift = shift + 7;
    }
}

/// A varint decodes back to the value it was encoded from, consuming exactly
/// the encoding, whatever bytes follow it.
pub proof fn lemma_varint_round_trip(v: u64, data: Seq<u8>, o: int)
    requires
        0 <= o,
        o + spec_varint(v).len() <= data.len(),
        data.subrange(o, o + spec_varint(v).len() as int) == spec_varint(v),
    ensures
        spec_decode_varint(data, o) == Some((v, spec_varint(v).len() as int)),
{
    lemma_spec_varint_len(v);
    assert((v << 0u64) >> 0u64 == v) by (bit_vector);
    assert(0u64 >> 0u64 == 0) by (bit_vector);
    lemma_varint_round_trip_rec(v, data, o, 0, 0, 0);
    assert(0u64 | (v << 0u64) == v) by (bit_vector);
}

proof fn lemma_varint_round_trip_rec(v: u64, data: Seq<u8>, o: int, taken: u64, shift: u64, acc: u64)
    requires
        0 <= o,
        o + spec_varint(v).len() <= data.len(),
        data.subrange(o, o + spec_varint(v).len() as int) == spec_varint(v),
        shift == 7 * taken,
        taken + spec_varint(v).len() <= 10,
        shift <= 63,
        (v << shift) >> shift == v,
        acc >> shift == 0,
    ensures
        spec_decode_varint_rec(data, o, taken as int, shift, acc)
            == Some((acc | (v << shift), taken as int + spec_varint(v).len())),
    decreases v,
{
    lemma_spec_varint_len(v);
    let b = data[o];
    assert(b == data.subrange(o, o + spec_varint(v).len() as int)[0]);
    assert(b == spec_varint(v)[0]);
    if v < 128 {
        assert(spec_varint(v) == seq![v as u8]);
        assert(b == v as u8);
        assert((v as u8) & 0x80 == 0 && ((v as u8) & 0x7f) as u64 == v) by (bit_vector)
            requires v < 128;
        if shift == 63 {
            assert((v as u8) & 0x7f <= 1) by (bit_vector)
                requires (v << 63u64) >> 63u64 == v, v < 128;
        }
        assert(acc | (((b & 0x7f) as u64) << shift) == acc | (v << shift));
    } else {
        assert(spec_varint(v) == seq![(v as u8) | 0x80] + spec_varint(v / 128));
        assert(b == (v as u8) | 0x80);
        assert(b & 0x80 != 0) by (bit_vector)
            requires b == (v as u8) | 0x80;
        assert(shift != 63) by (bit_vector)
            requires v >= 128, (v << shift) >> shift == v, shift <= 63;
        assert(taken <= 8);
        assert(shift <= 56);
        let shift2: u64 = (shift + 7) as u64;
        let v2: u64 = v / 128;
        let acc2: u64 = acc | (((b & 0x7f) as u64) << shift);
        assert(data.subrange(o + 1, o + 1 + spec_varint(v2).len() as int) =~= spec_varint(v2)) by {
            assert forall|i: int| 0 <= i < spec_varint(v2).len()
                implies data[o + 1 + i] == spec_varint(v2)[i] by {
                assert(data.subrange(o, o + spec_varint(v).len() as int)[i + 1] == spec_varint(v)[i + 1]);
            }
        };
        assert((v2 << shift2) >> shift2 == v2) by (bit_vector)
            requires
                v2 == v / 128,
                shift2 == shift + 7,
                shift <= 56,
                (v << shift) >> shift == v,
        ;
        assert(acc2 >> shift2 == 0) by (bit_vector)
            requires
                acc2 == acc | (((b & 0x7f) as u64) << shift),
                shift <= 56,
                shift2 == shift + 7,
                acc >> shift == 0,
        ;
        lemma_varint_round_trip_rec(v2, data, o + 1, (taken + 1) as u64, shift2, acc2);
        assert(acc2 | (v2 << shift2) == acc | (v << shift)) by (bit_vector)
            requires
                acc2 == acc | (((b & 0x7f) as u64) << shift),
                b == (v as u8) | 0x80,
                v2 == v / 128,
                v >= 128,
                shift <= 56,
                shift2 == shift + 7,
                (v << shift) >> shift == v,
        ;
    }
}

/// A successful decode consumed between one and ten bytes, all inside `data`.
pub proof fn lemma_decode_varint_some_bounds(data: Seq<u8>, o: int)
    requires
        spec_decode_varint(data, o) is Some,
    ensures
        0 <= o < data.len(),
        1 <= spec_decode_varint(data, o).unwrap().1 <= 10,
        o + spec_decode_varint(data, o).unwrap().1 <= data.len(),
{
    lemma_decode_varint_some_bounds_rec(data, o, 0, 0, 0);
}

proof fn lemma_decode_varint_some_bounds_rec(data: Seq<u8>, o: int, taken: int, shift: u64, acc: u64)
    requires
        0 <= taken,
        spec_decode_varint_rec(data, o, taken, shift, acc) is Some,
    ensures
        0 <= o < data.len(),
        taken + 1 <= spec_decode_varint_rec(data, o, taken, shift, acc).unwrap().1 <= 10,
        o + (spec_decode_varint_rec(data, o, taken, shift, acc).unwrap().1 - taken) <= data.len(),
    decreases 10 - taken,
{
    let b = data[o];
    if shift == 63 && (b & 0x7f) > 1 {
    } else if b & 0x80 == 0 {
    } else {
        let acc2 = acc | (((b & 0x7f) as u64) << shift);
        lemma_decode_varint_some_bounds_rec(data, o + 1, taken + 1, (shift + 7) as u64, acc2);
    }
}

/// A successful decode only looks at the consumed bytes: the same bytes in a
/// longer buffer decode to the same result.
pub proof fn lemma_decode_varint_extend(data: Seq<u8>, more: Seq<u8>, o: int)
    requires
        spec_decode_varint(data, o) is Some,
    ensures
        spec_decode_varint(data + more, o) == spec_decode_varint(data, o),
{
    lemma_decode_varint_extend_rec(data, more, o, 0, 0, 0);
}

proof fn lemma_decode_varint_extend_rec(data: Seq<u8>, more: Seq<u8>, o: int, taken: int, shift: u64, acc: u64)
    requires
        spec_decode_varint_rec(data, o, taken, shift, acc) is Some,
    ensures
        spec_decode_varint_rec(data + more, o, taken, shift, acc)
            == spec_decode_varint_rec(data, o, taken, shift, acc),
    decreases 10 - taken,
{
    if taken >= 10 {
    } else if o < 0 || o >= data.len() {
    } else {
        assert((data + more)[o] == data[o]);
        let b = data[o];
        if shift == 63 && (b & 0x7f) > 1 {
        } else if b & 0x80 == 0 {
        } else {
            let acc2 = acc | (((b & 0x7f) as u64) << shift);
            lemma_decode_varint_extend_rec(data, more, o + 1, taken + 1, (shift + 7) as u64, acc2);
        }
    }
}

} // verus!
