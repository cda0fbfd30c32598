use vstd::prelude::*;
use crate::{Error, FLAG_DELETED};
use crate::varint::{spec_varint, spec_decode_varint, encode_varint, decode_varint,
    lemma_varint_round_trip, lemma_spec_varint_len, lemma_decode_varint_extend};

verus! {

/// An owned, immutable byte string: keys and values of the store.
#[derive(Debug)]
pub struct Bytes {
    value: Vec<u8>,
}

impl View for Bytes {
    type V = Seq<u8>;

    closed spec fn view(&self) -> Seq<u8> {
        self.value@
    }
}

impl Bytes {
    pub fn new() -> (r: Self)
        ensures
            r@ == Seq::<u8>::empty(),
    {
        Bytes { value: Vec::new() }
    }

    pub fn from(v: Vec<u8>) -> (r: Self)
        ensures
            r@ == v@,
    {
        Bytes { value: v }
    }

    pub fn as_slice(&self) -> (r: &[u8])
        ensures
            r@ == self@,
    {
        self.value.as_slice()
    }

    pub fn len(&self) -> (r: usize)
        ensures
            r == self@.len(),
    {
        self.value.len()
    }
}

impl Clone for Bytes {
    fn clone(&self) -> (r: Self)
        ensures
            r@ == self@,
    {
        let mut v: Vec<u8> = Vec::new();
        push_all(&mut v, self.value.as_slice());
        Bytes { value: v }
    }
}

/// A record as stored in a segment: key, value, flag byte.
#[derive(Debug)]
pub struct Record {
    pub key: Bytes,
    pub value: Bytes,
    pub flag: u8,
}

/// An in-memory locator: where the most recent record of a key lives.
/// `segment` is the numeric index of the segment file; `offset` is the
/// position of the record's flag byte within it.  `value` is populated only
/// by an iteration that was asked to materialize values.
#[derive(Debug)]
pub struct RecordIndex {
    pub key: Bytes,
    pub segment: u64,
    pub flag: u8,
    pub offset: u64,
    pub value: Option<Bytes>,
}

impl Clone for RecordIndex {
    fn clone(&self) -> (r: Self)
        ensures
            r.key@ == self.key@,
            r.segment == self.segment,
            r.flag == self.flag,
            r.offset == self.offset,
            r.value is Some <==> self.value is Some,
            r.value is Some ==> r.value.unwrap()@ == self.value.unwrap()@,
    {
        let value: Option<Bytes> = match &self.value {
            Some(v) => Some(v.clone()),
            None => None,
        };
        RecordIndex {
            key: self.key.clone(),
            segment: self.segment,
            flag: self.flag,
            offset: self.offset,
            value,
        }
    }
}

impl RecordIndex {
    pub fn is_deleted(&self) -> (r: bool)
        ensures
            r == (self.flag & FLAG_DELETED != 0),
    {
        self.flag & FLAG_DELETED > 0
    }
}

/// Append every byte of `data` to `out`.
pub fn push_all(out: &mut Vec<u8>, data: &[u8])
    ensures
        final(out)@ == old(out)@ + data@,
{
    let mut i: usize = 0;
    while i < data.len()
        invariant
            i <= data@.len(),
            out@ == old(out)@ + data@.subrange(0, i as int),
        decreases data@.len() - i,
    {
        out.push(data[i]);
        i = i + 1;
        proof {
            assert(out@ =~= old(out)@ + data@.subrange(0, i as int));
        }
    }
    proof {
        assert(out@ =~= old(out)@ + data@);
    }
}

/// Copy `data[start..end]` into a fresh vector.
pub fn copy_range(data: &[u8], start: usize, end: usize) -> (r: Vec<u8>)
    requires
        start <= end <= data@.len(),
    ensures
        r@ == data@.subrange(start as int, end as int),
{
    let piece: &[u8] = vstd::slice::slice_subrange(data, start, end);
    let mut v: Vec<u8> = Vec::new();
    push_all(&mut v, piece);
    v
}

/// The 16-bit checksum the segment format stores over a record's key and
/// value bytes: polynomial 0x8005, init 0xFFFF, non-reflected, xor-out 0.
/// Named, not spelled out: the value is fixed by the crc crate's algorithm.
pub uninterp spec fn crc16_of(data: Seq<u8>) -> u16;

/// Relies on crc::Crc::<u16> with crc::CRC_16_CMS (width 16, poly 0x8005,
/// init 0xFFFF, refin/refout false, xorout 0): a digest updated with the key
/// bytes and then the value bytes finalizes to the checksum of their
/// concatenation, a pure function of those bytes.
#[verifier::external_body]
pub(crate) fn crc16_pair(key: &[u8], value: &[u8]) -> (r: u16)
    ensures
        r == crc16_of(key@ + value@),
{
    let crc16 = crc::Crc::<u16>::new(&crc::CRC_16_CMS);
    let mut digest = crc16.digest();
    digest.update(key);
    digest.update(value);
    digest.finalize()
}

/// The four checksum bytes a record stores: the 16-bit checksum little-endian,
/// zero-extended to four bytes.
pub open spec fn spec_crc_bytes(key: Seq<u8>, value: Seq<u8>) -> Seq<u8> {
    let c = crc16_of(key + value);
    seq![c as u8, (c >> 8) as u8, 0u8, 0u8]
}

/// The framed encoding of one record:
/// flag byte, varint key length, varint value length, key, value, 4 CRC bytes.
pub open spec fn spec_record(key: Seq<u8>, value: Seq<u8>, flag: u8) -> Seq<u8> {
    seq![flag]
        + spec_varint(key.len() as u64)
        + spec_varint(value.len() as u64)
        + key
        + value
        + spec_crc_bytes(key, value)
}

/// The header of a record: flag byte and the two length varints.  Only the
/// header must fit inside a block.
pub open spec fn spec_record_header_len(key: Seq<u8>, value: Seq<u8>) -> int {
    1 + spec_varint(key.len() as u64).len() as int + spec_varint(value.len() as u64).len() as int
}

pub proof fn lemma_spec_record_len(key: Seq<u8>, value: Seq<u8>, flag: u8)
    ensures
        spec_record(key, value, flag).len()
            == spec_record_header_len(key, value) + key.len() + value.len() + 4,
        3 <= spec_record_header_len(key, value) <= 21,
{
    lemma_spec_varint_len(key.len() as u64);
    lemma_spec_varint_len(value.len() as u64);
}

/// Append the framed encoding of a record to `out`.
pub fn encode_record(key: &[u8], value: &[u8], flag: u8, out: &mut Vec<u8>) -> (r: Result<(), Error>)
    ensures
        r is Ok,
        final(out)@ == old(out)@ + spec_record(key@, value@, flag),
{
    out.push(flag);
    encode_varint(key.len() as u64, out)?;
    encode_varint(value.len() as u64, out)?;
    push_all(out, key);
    push_all(out, value);
    let c: u16 = crc16_pair(key, value);
    out.push(#[verifier::truncate] (c as u8));
    out.push(#[verifier::truncate] ((c >> 8) as u8));
    out.push(0);
    out.push(0);
    proof {
        assert(out@ =~= old(out)@ + spec_record(key@, value@, flag));
    }
    Ok(())
}

/// Parsing a record frame at offset `o` of `c`: on success the key bytes,
/// value bytes, flag, the four stored CRC bytes, and the total frame length.
/// Fails where the frame runs past the end of `c` or a length varint is
/// malformed.  The flag byte is not interpreted here: callers decide whether
/// `o` starts a record or a padding region.
pub open spec fn spec_parse_record(c: Seq<u8>, o: int) -> Option<(Seq<u8>, Seq<u8>, u8, Seq<u8>, int)> {
    if o < 0 || o >= c.len() {
        None
    } else {
        let flag = c[o];
        match spec_decode_varint(c, o + 1) {
            None => None,
            Some((klen, kn)) => match spec_decode_varint(c, o + 1 + kn) {
                None => None,
                Some((vlen, vn)) => {
                    let ko = o + 1 + kn + vn;
                    let vo = ko + klen;
                    let co = vo + vlen;
                    if co + 4 <= c.len() {
                        Some((
                            c.subrange(ko, vo),
                            c.subrange(vo, co),
                            flag,
                            c.subrange(co, co + 4),
                            co + 4 - o,
                        ))
                    } else {
                        None
                    }
                },
            },
        }
    }
}

/// A record parses back to the key, value and flag it was encoded from,
/// wherever it sits in a larger buffer.
pub proof fn lemma_record_round_trip(c: Seq<u8>, o: int, key: Seq<u8>, value: Seq<u8>, flag: u8)
    requires
        0 <= o,
        key.len() <= u64::MAX,
        value.len() <= u64::MAX,
        o + spec_record(key, value, flag).len() <= c.len(),
        c.subrange(o, o + spec_record(key, value, flag).len() as int) == spec_record(key, value, flag),
    ensures
        spec_parse_record(c, o)
            == Some((key, value, flag, spec_crc_bytes(key, value),
                spec_record(key, value, flag).len() as int)),
{
    let rec = spec_record(key, value, flag);
    let sk = spec_varint(key.len() as u64);
    let sv = spec_varint(value.len() as u64);
    lemma_spec_varint_len(key.len() as u64);
    lemma_spec_varint_len(value.len() as u64);
    let kn = sk.len() as int;
    let vn = sv.len() as int;
    let klen = key.len() as int;
    let vlen = value.len() as int;
    assert forall|i: int| 0 <= i < rec.len() implies c[o + i] == rec[i] by {
        assert(c.subrange(o, o + rec.len() as int)[i] == c[o + i]);
    }
    assert(c[o] == rec[0]);
    assert(rec[0] == flag);
    // the key-length varint
    assert(c.subrange(o + 1, o + 1 + kn) =~= sk) by {
        assert forall|i: int| 0 <= i < kn implies c[o + 1 + i] == sk[i] by {
            assert(rec[1 + i] == sk[i]);
        }
    };
    lemma_varint_round_trip(key.len() as u64, c, o + 1);
    // the value-length varint
    assert(c.subrange(o + 1 + kn, o + 1 + kn + vn) =~= sv) by {
        assert forall|i: int| 0 <= i < vn implies c[o + 1 + kn + i] == sv[i] by {
            assert(rec[1 + kn + i] == sv[i]);
        }
    };
    lemma_varint_round_trip(value.len() as u64, c, o + 1 + kn);
    let ko = o + 1 + kn + vn;
    let vo = ko + klen;
    let co = vo + vlen;
    assert(c.subrange(ko, vo) =~= key) by {
        assert forall|i: int| 0 <= i < klen implies c[ko + i] == key[i] by {
            assert(rec[1 + kn + vn + i] == key[i]);
        }
    };
    assert(c.subrange(vo, co) =~= value) by {
        assert forall|i: int| 0 <= i < vlen implies c[vo + i] == value[i] by {
            assert(rec[1 + kn + vn + klen + i] == value[i]);
        }
    };
    assert(c.subrange(co, co + 4) =~= spec_crc_bytes(key, value)) by {
        assert forall|i: int| 0 <= i < 4 implies c[co + i] == spec_crc_bytes(key, value)[i] by {
            assert(rec[1 + kn + vn + klen + vlen + i] == spec_crc_bytes(key, value)[i]);
        }
    };
}

/// A successful record parse only looks at the frame's own bytes: the same
/// bytes in a longer buffer parse to the same result.
pub proof fn lemma_parse_record_extend(c: Seq<u8>, more: Seq<u8>, o: int)
    requires
        spec_parse_record(c, o) is Some,
    ensures
        spec_parse_record(c + more, o) == spec_parse_record(c, o),
{
    let c2 = c + more;
    assert(0 <= o < c.len());
    assert(c2[o] == c[o]);
    crate::varint::lemma_decode_varint_some_bounds(c, o + 1);
    lemma_decode_varint_extend(c, more, o + 1);
    let (klen, kn) = spec_decode_varint(c, o + 1).unwrap();
    crate::varint::lemma_decode_varint_some_bounds(c, o + 1 + kn);
    lemma_decode_varint_extend(c, more, o + 1 + kn);
    let (vlen, vn) = spec_decode_varint(c, o + 1 + kn).unwrap();
    let ko = o + 1 + kn + vn;
    let vo = ko + klen;
    let co = vo + vlen;
    assert(co + 4 <= c.len());
    assert(c2.subrange(ko, vo) =~= c.subrange(ko, vo));
    assert(c2.subrange(vo, co) =~= c.subrange(vo, co));
    assert(c2.subrange(co, co + 4) =~= c.subrange(co, co + 4));
}

/// The result of parsing one record frame out of a byte buffer.
pub struct ParsedRecord {
    pub key: Vec<u8>,
    pub value: Vec<u8>,
    pub flag: u8,
    pub crc: Vec<u8>,
    /// Offset just past the frame: record offset plus total frame length.
    pub end: usize,
}

/// Parse the record frame at `offset`, mirroring `spec_parse_record`.
pub fn parse_record_at(data: &[u8], offset: usize) -> (r: Result<ParsedRecord, Error>)
    ensures
        match r {
            Ok(p) => spec_parse_record(data@, offset as int)
                == Some((p.key@, p.value@, p.flag, p.crc@, p.end - offset))
                && offset < p.end <= data@.len()
                && p.crc@.len() == 4,
            Err(e) => spec_parse_record(data@, offset as int) is None && e == Error::Corrupt,
        },
{
    if offset >= data.len() {
        return Err(Error::Corrupt);
    }
    let flag: u8 = *vstd::slice::slice_index_get(data, offset);
    let (klen, kn) = decode_varint(data, offset + 1)?;
    let (vlen, vn) = decode_varint(data, offset + 1 + kn)?;
    let ko: usize = offset + 1 + kn + vn;
    let rest_k: u64 = (data.len() - ko) as u64;
    if klen > rest_k {
        return Err(Error::Corrupt);
    }
    let vo: usize = ko + (klen as usize);
    let rest_v: u64 = (data.len() - vo) as u64;
    if vlen > rest_v {
        return Err(Error::Corrupt);
    }
    let co: usize = vo + (vlen as usize);
    if data.len() - co < 4 {
        return Err(Error::Corrupt);
    }
    let key: Vec<u8> = copy_range(data, ko, vo);
    let value: Vec<u8> = copy_range(data, vo, co);
    let crc_field: Vec<u8> = copy_range(data, co, co + 4);
    Ok(ParsedRecord { key, value, flag, crc: crc_field, end: co + 4 })
}

} // verus!
