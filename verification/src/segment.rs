use vstd::prelude::*;
use crate::{Error, BLOCK_BYTES, MAX_SEGMENT_BYTES, FLAG_PADDING};
use crate::record::{Bytes, Record, RecordIndex, ParsedRecord, spec_record, spec_crc_bytes,
    spec_record_header_len, spec_parse_record, encode_record, parse_record_at, crc16_pair,
    lemma_record_round_trip, lemma_parse_record_extend, lemma_spec_record_len};
use crate::varint::lemma_spec_varint_len;

verus! {

/// One parsed record of a segment: its offset, key, value, flag, and the four
/// stored CRC bytes.
pub type SegEntry = (int, Seq<u8>, Seq<u8>, u8, Seq<u8>);

/// The offset of the block after the one holding `o`; an offset already on a
/// block boundary moves a whole block forward.
pub open spec fn spec_next_block_offset(o: int) -> int {
    if o % (BLOCK_BYTES as int) == 0 {
        o + BLOCK_BYTES
    } else {
        (o / (BLOCK_BYTES as int) + 1) * (BLOCK_BYTES as int)
    }
}

pub proof fn lemma_next_block_offset(o: int)
    requires
        o >= 0,
    ensures
        o < spec_next_block_offset(o) <= o + BLOCK_BYTES,
        spec_next_block_offset(o) % (BLOCK_BYTES as int) == 0,
        o % (BLOCK_BYTES as int) != 0 ==> spec_next_block_offset(o) == o + BLOCK_BYTES - o % (BLOCK_BYTES as int),
{
    let b = BLOCK_BYTES as int;
    vstd::arithmetic::div_mod::lemma_fundamental_div_mod(o, b);
    if o % b != 0 {
        assert((o / b + 1) * b == (o / b) * b + b) by (nonlinear_arith);
        assert((o / b) * b == b * (o / b)) by (nonlinear_arith);
    }
}

/// Where the block after `offset` begins.
pub fn next_block_offset(offset: u64) -> (r: u64)
    requires
        offset + BLOCK_BYTES <= u64::MAX,
    ensures
        r == spec_next_block_offset(offset as int),
{
    proof {
        lemma_next_block_offset(offset as int);
    }
    if offset % BLOCK_BYTES == 0 {
        offset + BLOCK_BYTES
    } else {
        let r = offset / BLOCK_BYTES + 1;
        proof {
            vstd::arithmetic::div_mod::lemma_fundamental_div_mod(offset as int, BLOCK_BYTES as int);
            assert(r * BLOCK_BYTES == spec_next_block_offset(offset as int)) by (nonlinear_arith)
                requires
                    r == offset / BLOCK_BYTES + 1,
                    offset % BLOCK_BYTES != 0,
                    spec_next_block_offset(offset as int)
                        == (offset as int / (BLOCK_BYTES as int) + 1) * (BLOCK_BYTES as int),
            ;
        }
        r * BLOCK_BYTES
    }
}

/// The records of a segment, reading forward from offset `o`: a byte with the
/// padding bit set skips to the next block boundary; any other byte starts a
/// record frame.  None where a frame is truncated or malformed.
pub open spec fn spec_seg_records(c: Seq<u8>, o: int) -> Option<Seq<SegEntry>>
    decreases c.len() - o,
    when o >= 0
    via spec_seg_records_decreases
{
    if o >= c.len() {
        Some(Seq::empty())
    } else if c[o] & FLAG_PADDING != 0 {
        let o2 = spec_next_block_offset(o);
        if o2 >= c.len() {
            Some(Seq::empty())
        } else {
            spec_seg_records(c, o2)
        }
    } else {
        match spec_parse_record(c, o) {
            None => None,
            Some((key, value, flag, crc, len)) => {
                match spec_seg_records(c, o + len) {
                    None => None,
                    Some(rest) => Some(seq![(o, key, value, flag, crc)] + rest),
                }
            },
        }
    }
}

#[via_fn]
proof fn spec_seg_records_decreases(c: Seq<u8>, o: int) {
    if 0 <= o < c.len() {
        if c[o] & FLAG_PADDING != 0 {
            lemma_next_block_offset(o);
        } else {
            if spec_parse_record(c, o) is Some {
                lemma_parse_record_len(c, o);
            }
        }
    }
}

/// A successful record parse covers at least seven bytes and stays inside `c`.
pub proof fn lemma_parse_record_len(c: Seq<u8>, o: int)
    requires
        spec_parse_record(c, o) is Some,
    ensures
        7 <= spec_parse_record(c, o).unwrap().4,
        o + spec_parse_record(c, o).unwrap().4 <= c.len(),
{
    crate::varint::lemma_decode_varint_some_bounds(c, o + 1);
    let (klen, kn) = crate::varint::spec_decode_varint(c, o + 1).unwrap();
    crate::varint::lemma_decode_varint_some_bounds(c, o + 1 + kn);
}

/// Every entry's stored CRC bytes match the checksum of its key and value.
pub open spec fn seg_entries_crc_ok(es: Seq<SegEntry>) -> bool {
    forall|i: int| 0 <= i < es.len() ==> #[trigger] es[i].4 == spec_crc_bytes(es[i].1, es[i].2)
}

/// A segment parses cleanly from `o`: every padding skip lands strictly inside
/// the contents (a record follows every padding region) and every frame is
/// well formed.  Contents built by `Segment::write` parse cleanly.
pub open spec fn seg_parse_clean(c: Seq<u8>, o: int) -> bool
    decreases c.len() - o,
    when o >= 0
    via seg_parse_clean_decreases
{
    if o >= c.len() {
        true
    } else if c[o] & FLAG_PADDING != 0 {
        let o2 = spec_next_block_offset(o);
        o2 < c.len() && seg_parse_clean(c, o2)
    } else {
        match spec_parse_record(c, o) {
            None => false,
            Some((key, value, flag, crc, len)) => seg_parse_clean(c, o + len),
        }
    }
}

#[via_fn]
proof fn seg_parse_clean_decreases(c: Seq<u8>, o: int) {
    if 0 <= o < c.len() {
        if c[o] & FLAG_PADDING != 0 {
            lemma_next_block_offset(o);
        } else {
            if spec_parse_record(c, o) is Some {
                lemma_parse_record_len(c, o);
            }
        }
    }
}

/// Each entry of a parsed segment is a record frame at its recorded offset:
/// parsing at the entry's offset returns the entry's fields.
pub proof fn lemma_seg_entry_parses(c: Seq<u8>, o: int)
    requires
        0 <= o,
        spec_seg_records(c, o) is Some,
    ensures
        forall|i: int| 0 <= i < spec_seg_records(c, o).unwrap().len() ==> {
            let e = #[trigger] spec_seg_records(c, o).unwrap()[i];
            &&& spec_parse_record(c, e.0) is Some
            &&& spec_parse_record(c, e.0).unwrap().0 == e.1
            &&& spec_parse_record(c, e.0).unwrap().1 == e.2
            &&& spec_parse_record(c, e.0).unwrap().2 == e.3
            &&& spec_parse_record(c, e.0).unwrap().3 == e.4
            &&& e.3 & FLAG_PADDING == 0
            &&& o <= e.0 < c.len()
        },
    decreases c.len() - o,
{
    let es = spec_seg_records(c, o).unwrap();
    if o >= c.len() {
    } else if c[o] & FLAG_PADDING != 0 {
        let o2 = spec_next_block_offset(o);
        lemma_next_block_offset(o);
        if o2 >= c.len() {
        } else {
            lemma_seg_entry_parses(c, o2);
        }
    } else {
        let p = spec_parse_record(c, o).unwrap();
        lemma_parse_record_len(c, o);
        lemma_seg_entry_parses(c, o + p.4);
        let rest = spec_seg_records(c, o + p.4).unwrap();
        assert forall|i: int| 0 <= i < es.len() implies {
            let e = #[trigger] es[i];
            &&& spec_parse_record(c, e.0) is Some
            &&& spec_parse_record(c, e.0).unwrap().0 == e.1
            &&& spec_parse_record(c, e.0).unwrap().1 == e.2
            &&& spec_parse_record(c, e.0).unwrap().2 == e.3
            &&& spec_parse_record(c, e.0).unwrap().3 == e.4
            &&& e.3 & FLAG_PADDING == 0
            &&& o <= e.0 < c.len()
        } by {
            if i > 0 {
                assert(es[i] == rest[i - 1]);
            }
        }
    }
}

/// How many padding bytes an append at length `len` writes before a record
/// whose header takes `header` bytes: the rest of the current block where the
/// header would not fit entirely, nothing otherwise.
pub open spec fn spec_pad_len(len: int, header: int) -> int {
    if len % (BLOCK_BYTES as int) + header > BLOCK_BYTES {
        BLOCK_BYTES - len % (BLOCK_BYTES as int)
    } else {
        0
    }
}

/// A padding region: one byte with the padding bit set, then zeros.
pub open spec fn spec_padding_bytes(n: int) -> Seq<u8> {
    if n <= 0 {
        Seq::empty()
    } else {
        seq![FLAG_PADDING] + Seq::new((n - 1) as nat, |i: int| 0u8)
    }
}

/// What an append reports: where the record's flag byte landed, and whether
/// the segment reached its soft size cap.
pub struct WriteResult {
    pub is_segment_full: bool,
    pub begin_offset: u64,
}

/// An append-only record file.  The unique mutable segment of a directory
/// accepts appends; all others are immutable.  Contents are held as the exact
/// byte image of the file.
pub struct Segment {
    index: u64,
    mutable: bool,
    contents: Vec<u8>,
}

impl View for Segment {
    type V = Seq<u8>;

    closed spec fn view(&self) -> Seq<u8> {
        self.contents@
    }
}

impl Segment {
    /// The numeric index the segment file is named after.
    pub closed spec fn idx(&self) -> u64 {
        self.index
    }

    pub closed spec fn is_mut(&self) -> bool {
        self.mutable
    }

    /// A mutable segment holds cleanly parsing contents whose length stays
    /// within the arithmetic the append path needs.
    pub open spec fn wf(&self) -> bool {
        self.is_mut() ==> seg_parse_clean(self@, 0)
    }

    pub fn index(&self) -> (r: u64)
        ensures
            r == self.idx(),
    {
        self.index
    }

    pub fn is_mutable(&self) -> (r: bool)
        ensures
            r == self.is_mut(),
    {
        self.mutable
    }

    pub fn len(&self) -> (r: usize)
        ensures
            r == self@.len(),
    {
        self.contents.len()
    }

    pub fn contents(&self) -> (r: &Vec<u8>)
        ensures
            r@ == self@,
    {
        &self.contents
    }

    /// Create the unique mutable segment with the given index: empty contents.
    pub fn create(index: u64) -> (r: Self)
        ensures
            r.idx() == index,
            r.is_mut(),
            r@ == Seq::<u8>::empty(),
            r.wf(),
    {
        Segment { index, mutable: true, contents: Vec::new() }
    }

    /// Open an immutable segment over the byte image read from its file.
    pub fn open_read_only(index: u64, contents: Vec<u8>) -> (r: Self)
        ensures
            r.idx() == index,
            !r.is_mut(),
            r@ == contents@,
            r.wf(),
    {
        Segment { index, mutable: false, contents }
    }

    /// Give up the segment, keeping only its byte image.
    pub fn into_contents(self) -> (r: Vec<u8>)
        ensures
            r@ == self@,
    {
        self.contents
    }

    /// Demote the active segment to an immutable one after rotation.
    pub fn into_read_only(self) -> (r: Self)
        ensures
            r.idx() == self.idx(),
            !r.is_mut(),
            r@ == self@,
            r.wf(),
    {
        Segment { index: self.index, mutable: false, contents: self.contents }
    }

    /// Append one framed record, padding the rest of the current block first
    /// where the record's header would not fit in it.  Returns the offset of
    /// the record's flag byte and whether the segment is now full.  The
    /// header never crosses a block boundary.
    pub fn write(&mut self, key: &[u8], value: &[u8], flag: u8) -> (r: Result<WriteResult, Error>)
        requires
            flag & FLAG_PADDING == 0,
        ensures
            final(self).idx() == old(self).idx(),
            final(self).is_mut() == old(self).is_mut(),
            !old(self).is_mut() ==> r == Err::<WriteResult, Error>(Error::Immutable)
                && final(self)@ == old(self)@,
            old(self).is_mut() ==> r is Ok && ({
                let pad = spec_pad_len(old(self)@.len() as int, spec_record_header_len(key@, value@));
                let wr = r.unwrap();
                &&& final(self)@ == old(self)@ + spec_padding_bytes(pad) + spec_record(key@, value@, flag)
                &&& wr.begin_offset == old(self)@.len() + pad
                &&& wr.is_segment_full == (final(self)@.len() >= MAX_SEGMENT_BYTES)
                &&& wr.begin_offset % BLOCK_BYTES + spec_record_header_len(key@, value@) <= BLOCK_BYTES
            }),
    {
        if !self.mutable {
            return Err(Error::Immutable);
        }
        let ghost old_contents: Seq<u8> = self.contents@;
        proof {
            lemma_spec_record_len(key@, value@, flag);
        }
        let klen_enc = crate::varint::encode_varint_to_vec(key.len() as u64)?;
        let vlen_enc = crate::varint::encode_varint_to_vec(value.len() as u64)?;
        let header_len: u64 = 1 + klen_enc.len() as u64 + vlen_enc.len() as u64;
        assert(header_len == spec_record_header_len(key@, value@));
        let block_written: u64 = (self.contents.len() as u64) % BLOCK_BYTES;
        let ghost pad = spec_pad_len(old_contents.len() as int, spec_record_header_len(key@, value@));
        if header_len + block_written > BLOCK_BYTES {
            let pad_len: u64 = BLOCK_BYTES - block_written;
            assert(pad == pad_len);
            let ghost idx0: u64 = self.index;
            let ghost mut0: bool = self.mutable;
            self.contents.push(FLAG_PADDING);
            let mut zeros: u64 = 1;
            while zeros < pad_len
                invariant
                    1 <= zeros <= pad_len,
                    pad_len <= BLOCK_BYTES,
                    self.index == idx0,
                    self.mutable == mut0,
                    self.contents@.len() == old_contents.len() + zeros,
                    self.contents@ == old_contents + spec_padding_bytes(zeros as int),
                decreases pad_len - zeros,
            {
                self.contents.push(0);
                zeros = zeros + 1;
                proof {
                    assert(self.contents@ =~= old_contents + spec_padding_bytes(zeros as int));
                }
            }
        } else {
            assert(pad == 0);
            proof {
                assert(old_contents + spec_padding_bytes(0) =~= old_contents);
            }
        }
        let begin_offset: u64 = self.contents.len() as u64;
        assert(begin_offset == old_contents.len() + pad);
        encode_record(key, value, flag, &mut self.contents)?;
        let new_len: u64 = self.contents.len() as u64;
        let is_segment_full = new_len >= MAX_SEGMENT_BYTES;
        proof {
            assert(self.contents@ =~= old_contents + spec_padding_bytes(pad) + spec_record(key@, value@, flag));
            lemma_begin_offset_block(old_contents.len() as int, spec_record_header_len(key@, value@));
        }
        Ok(WriteResult { is_segment_full, begin_offset })
    }
}

/// How a list of locators mirrors a list of parsed entries: same keys, flags
/// and offsets, all naming segment `seg`; values kept only when asked for.
pub open spec fn rec_indexes_match(v: Seq<RecordIndex>, es: Seq<SegEntry>, seg: u64, with_value: bool) -> bool {
    &&& v.len() == es.len()
    &&& forall|i: int| 0 <= i < es.len() ==> {
        &&& (#[trigger] v[i]).key@ == es[i].1
        &&& v[i].segment == seg
        &&& v[i].offset == es[i].0
        &&& v[i].flag == es[i].3
        &&& if with_value {
            v[i].value is Some && v[i].value.unwrap()@ == es[i].2
        } else {
            v[i].value is None
        }
    }
}

/// The records of a whole segment are a prefix already walked plus whatever
/// parses after the cursor.
pub open spec fn prepend_entries(pre: Seq<SegEntry>, rest: Option<Seq<SegEntry>>) -> Option<Seq<SegEntry>> {
    match rest {
        None => None,
        Some(r) => Some(pre + r),
    }
}

impl Segment {
    /// Read the record whose flag byte sits at `offset`.  A padding byte
    /// yields an empty record carrying that flag, as iteration expects; CRC
    /// is not checked on this random-access path.
    pub fn read_at(&self, offset: u64) -> (r: Result<Record, Error>)
        ensures
            offset >= self@.len() ==> r is Err,
            r is Err ==> r.unwrap_err() == Error::Corrupt,
            offset < self@.len() && self@[offset as int] & FLAG_PADDING != 0 ==> r is Ok
                && r.unwrap().flag == self@[offset as int]
                && r.unwrap().key@ == Seq::<u8>::empty()
                && r.unwrap().value@ == Seq::<u8>::empty(),
            offset < self@.len() && self@[offset as int] & FLAG_PADDING == 0 ==> match r {
                Ok(rec) => spec_parse_record(self@, offset as int) is Some
                    && rec.key@ == spec_parse_record(self@, offset as int).unwrap().0
                    && rec.value@ == spec_parse_record(self@, offset as int).unwrap().1
                    && rec.flag == spec_parse_record(self@, offset as int).unwrap().2,
                Err(e) => spec_parse_record(self@, offset as int) is None,
            },
    {
        let n: u64 = self.contents.len() as u64;
        if offset >= n {
            return Err(Error::Corrupt);
        }
        let off: usize = offset as usize;
        let flag: u8 = *vstd::slice::slice_index_get(self.contents.as_slice(), off);
        if flag & FLAG_PADDING > 0 {
            return Ok(Record { key: Bytes::new(), value: Bytes::new(), flag });
        }
        let p: ParsedRecord = parse_record_at(self.contents.as_slice(), off)?;
        Ok(Record { key: Bytes::from(p.key), value: Bytes::from(p.value), flag: p.flag })
    }

    /// Walk the whole segment, yielding a locator for each record; values are
    /// not materialized.  Every record's CRC is verified: this path is what
    /// rebuild uses, where corruption is fatal.
    pub fn iter(&self) -> (r: Result<Vec<RecordIndex>, Error>)
        ensures
            match r {
                Ok(v) => spec_seg_records(self@, 0) is Some
                    && seg_entries_crc_ok(spec_seg_records(self@, 0).unwrap())
                    && rec_indexes_match(v@, spec_seg_records(self@, 0).unwrap(), self.idx(), false),
                Err(e) => e == Error::Corrupt
                    && !(spec_seg_records(self@, 0) is Some
                        && seg_entries_crc_ok(spec_seg_records(self@, 0).unwrap())),
            },
    {
        self.iter_impl(false)
    }

    /// Walk the whole segment with values materialized, as reading a hint
    /// file requires.  Every record's CRC is verified.
    pub fn iter_with_value(&self) -> (r: Result<Vec<RecordIndex>, Error>)
        ensures
            match r {
                Ok(v) => spec_seg_records(self@, 0) is Some
                    && seg_entries_crc_ok(spec_seg_records(self@, 0).unwrap())
                    && rec_indexes_match(v@, spec_seg_records(self@, 0).unwrap(), self.idx(), true),
                Err(e) => e == Error::Corrupt
                    && !(spec_seg_records(self@, 0) is Some
                        && seg_entries_crc_ok(spec_seg_records(self@, 0).unwrap())),
            },
    {
        self.iter_impl(true)
    }

    fn iter_impl(&self, with_value: bool) -> (r: Result<Vec<RecordIndex>, Error>)
        ensures
            match r {
                Ok(v) => spec_seg_records(self@, 0) is Some
                    && seg_entries_crc_ok(spec_seg_records(self@, 0).unwrap())
                    && rec_indexes_match(v@, spec_seg_records(self@, 0).unwrap(), self.idx(), with_value),
                Err(e) => e == Error::Corrupt
                    && !(spec_seg_records(self@, 0) is Some
                        && seg_entries_crc_ok(spec_seg_records(self@, 0).unwrap())),
            },
    {
        let data: &[u8] = self.contents.as_slice();
        let n: usize = data.len();
        let mut out: Vec<RecordIndex> = Vec::new();
        let mut o: usize = 0;
        let ghost mut done: Seq<SegEntry> = Seq::empty();
        loop
            invariant
                data@ == self@,
                n == data@.len(),
                o <= n,
                rec_indexes_match(out@, done, self.idx(), with_value),
                seg_entries_crc_ok(done),
                spec_seg_records(data@, 0) == prepend_entries(done, spec_seg_records(data@, o as int)),
            decreases n - o,
        {
            if o >= n {
                proof {
                    assert(spec_seg_records(data@, o as int) == Some(Seq::<SegEntry>::empty()));
                    assert(done + Seq::<SegEntry>::empty() =~= done);
                }
                return Ok(out);
            }
            let flag: u8 = *vstd::slice::slice_index_get(data, o);
            if flag & FLAG_PADDING > 0 {
                // skip to the start of the next block
                let rem: u64 = (o as u64) % BLOCK_BYTES;
                let d: u64 = if rem == 0 { BLOCK_BYTES } else { BLOCK_BYTES - rem };
                proof {
                    lemma_next_block_offset(o as int);
                    assert(spec_next_block_offset(o as int) == o + d);
                }
                if ((n - o) as u64) <= d {
                    proof {
                        assert(spec_seg_records(data@, o as int) == Some(Seq::<SegEntry>::empty()));
                        assert(done + Seq::<SegEntry>::empty() =~= done);
                    }
                    return Ok(out);
                }
                o = o + (d as usize);
            } else {
                let p: ParsedRecord = match parse_record_at(data, o) {
                    Ok(p) => p,
                    Err(_) => {
                        proof {
                            assert(spec_seg_records(data@, o as int) is None);
                        }
                        return Err(Error::Corrupt);
                    },
                };
                let ghost e: SegEntry = (o as int, p.key@, p.value@, p.flag, p.crc@);
                let computed: u16 = crc16_pair(p.key.as_slice(), p.value.as_slice());
                let lo: u8 = #[verifier::truncate] (computed as u8);
                let hi: u8 = #[verifier::truncate] ((computed >> 8) as u8);
                assert(p.crc@.len() == 4);
                let crc_ok = p.crc[0] == lo && p.crc[1] == hi && p.crc[2] == 0 && p.crc[3] == 0;
                if !crc_ok {
                    proof {
                        assert(p.crc@ != spec_crc_bytes(p.key@, p.value@)) by {
                            if p.crc@ == spec_crc_bytes(p.key@, p.value@) {
                                assert(p.crc@[0] == lo && p.crc@[1] == hi
                                    && p.crc@[2] == 0 && p.crc@[3] == 0);
                            }
                        };
                        let rest_opt = spec_seg_records(data@, p.end as int);
                        if rest_opt is Some {
                            let rest = rest_opt.unwrap();
                            assert(spec_seg_records(data@, o as int) == Some(seq![e] + rest));
                            let full = done + (seq![e] + rest);
                            assert((seq![e] + rest)[0] == e);
                            assert(full[done.len() as int] == e);
                            assert(full[done.len() as int].4 != spec_crc_bytes(
                                full[done.len() as int].1, full[done.len() as int].2));
                            assert(!seg_entries_crc_ok(full));
                        }
                    }
                    return Err(Error::Corrupt);
                }
                proof {
                    assert(p.crc@ =~= spec_crc_bytes(p.key@, p.value@));
                }
                let ri = RecordIndex {
                    key: Bytes::from(p.key),
                    segment: self.index,
                    flag: p.flag,
                    offset: o as u64,
                    value: if with_value { Some(Bytes::from(p.value)) } else { None },
                };
                out.push(ri);
                proof {
                    let rest_opt = spec_seg_records(data@, p.end as int);
                    if rest_opt is Some {
                        let rest = rest_opt.unwrap();
                        assert(spec_seg_records(data@, o as int) == Some(seq![e] + rest));
                        assert(done + (seq![e] + rest) =~= (done + seq![e]) + rest);
                    }
                    done = done + seq![e];
                }
                o = p.end;
            }
        }
    }
}

/// Appending one record (with its padding) to cleanly parsing contents keeps
/// them cleanly parsing and extends the record list by exactly that record,
/// at offset `len + pad`.
pub proof fn lemma_seg_append(c: Seq<u8>, key: Seq<u8>, value: Seq<u8>, flag: u8)
    requires
        seg_parse_clean(c, 0),
        flag & FLAG_PADDING == 0,
        key.len() <= u64::MAX,
        value.len() <= u64::MAX,
    ensures
        ({
            let pad = spec_pad_len(c.len() as int, spec_record_header_len(key, value));
            let c2 = c + spec_padding_bytes(pad) + spec_record(key, value, flag);
            &&& seg_parse_clean(c2, 0)
            &&& spec_seg_records(c, 0) is Some
            &&& spec_seg_records(c2, 0) == Some(spec_seg_records(c, 0).unwrap()
                + seq![(c.len() as int + pad, key, value, flag, spec_crc_bytes(key, value))])
        }),
{
    lemma_seg_append_rec(c, key, value, flag, 0);
}

proof fn lemma_seg_append_rec(c: Seq<u8>, key: Seq<u8>, value: Seq<u8>, flag: u8, o: int)
    requires
        0 <= o <= c.len(),
        seg_parse_clean(c, o),
        flag & FLAG_PADDING == 0,
        key.len() <= u64::MAX,
        value.len() <= u64::MAX,
    ensures
        ({
            let pad = spec_pad_len(c.len() as int, spec_record_header_len(key, value));
            let c2 = c + spec_padding_bytes(pad) + spec_record(key, value, flag);
            &&& seg_parse_clean(c2, o)
            &&& spec_seg_records(c, o) is Some
            &&& spec_seg_records(c2, o) == Some(spec_seg_records(c, o).unwrap()
                + seq![(c.len() as int + pad, key, value, flag, spec_crc_bytes(key, value))])
        }),
    decreases c.len() - o,
{
    let b = BLOCK_BYTES as int;
    let header = spec_record_header_len(key, value);
    let pad = spec_pad_len(c.len() as int, header);
    let rec = spec_record(key, value, flag);
    let pb = spec_padding_bytes(pad);
    let c2 = c + pb + rec;
    let rs = c.len() as int + pad;
    let entry = (rs, key, value, flag, spec_crc_bytes(key, value));
    lemma_spec_record_len(key, value, flag);
    lemma_spec_varint_len(key.len() as u64);
    lemma_spec_varint_len(value.len() as u64);
    assert(0 <= pad < b);
    assert(pb.len() == pad);
    assert(c2.len() == rs + rec.len());
    if o == c.len() {
        // the appended frame begins here
        assert(c2.subrange(rs, rs + rec.len() as int) =~= rec) by {
            assert forall|i: int| 0 <= i < rec.len() implies c2[rs + i] == rec[i] by {
                assert(c2[rs + i] == rec[i]);
            }
        };
        lemma_record_round_trip(c2, rs, key, value, flag);
        assert(spec_parse_record(c2, rs) == Some((key, value, flag, spec_crc_bytes(key, value), rec.len() as int)));
        assert(rs + rec.len() == c2.len());
        assert(spec_seg_records(c2, rs + rec.len() as int) == Some(Seq::<SegEntry>::empty()));
        assert(seg_parse_clean(c2, rs + rec.len() as int));
        assert(rec[0] == flag);
        assert(c2[rs] == flag);
        assert(spec_seg_records(c2, rs) == Some(seq![entry] + Seq::<SegEntry>::empty()));
        assert(seg_parse_clean(c2, rs));
        if pad == 0 {
            assert(o == rs);
        } else {
            // a padding region runs from o to the block boundary at rs
            assert(c2[o] == pb[0]);
            assert(pb[0] == FLAG_PADDING);
            assert(FLAG_PADDING & FLAG_PADDING != 0) by (bit_vector);
            assert(o % b + header > b);
            assert(o % b != 0);
            lemma_next_block_offset(o);
            assert(spec_next_block_offset(o) == o + b - o % b);
            assert(pad == b - o % b);
            assert(spec_next_block_offset(o) == rs);
            assert(rs < c2.len());
            assert(spec_seg_records(c2, o) == spec_seg_records(c2, rs));
            assert(seg_parse_clean(c2, o));
        }
        assert(spec_seg_records(c, o) == Some(Seq::<SegEntry>::empty()));
        assert(spec_seg_records(c2, o) == Some(seq![entry]));
        assert(Seq::<SegEntry>::empty() + seq![entry] =~= seq![entry]);
    } else {
        assert(c2[o] == c[o]);
        if c[o] & FLAG_PADDING != 0 {
            let o2 = spec_next_block_offset(o);
            lemma_next_block_offset(o);
            assert(o2 < c.len() && seg_parse_clean(c, o2));
            lemma_seg_append_rec(c, key, value, flag, o2);
            assert(spec_seg_records(c, o) == spec_seg_records(c, o2));
            assert(spec_seg_records(c2, o) == spec_seg_records(c2, o2));
        } else {
            let p = spec_parse_record(c, o).unwrap();
            lemma_parse_record_len(c, o);
            assert(c2 =~= c + (pb + rec));
            lemma_parse_record_extend(c, pb + rec, o);
            assert(spec_parse_record(c2, o) == Some(p));
            lemma_seg_append_rec(c, key, value, flag, o + p.4);
            let rest = spec_seg_records(c, o + p.4).unwrap();
            assert(spec_seg_records(c, o) == Some(seq![(o, p.0, p.1, p.2, p.3)] + rest));
            assert(spec_seg_records(c2, o + p.4) == Some(rest + seq![entry]));
            assert(spec_seg_records(c2, o) == Some(seq![(o, p.0, p.1, p.2, p.3)] + (rest + seq![entry])));
            assert(seq![(o, p.0, p.1, p.2, p.3)] + (rest + seq![entry])
                =~= (seq![(o, p.0, p.1, p.2, p.3)] + rest) + seq![entry]);
        }
    }
}

/// After padding, the appended record's header fits inside its block.
proof fn lemma_begin_offset_block(len: int, header: int)
    requires
        len >= 0,
        3 <= header <= 21,
    ensures
        (len + spec_pad_len(len, header)) % (BLOCK_BYTES as int) + header <= BLOCK_BYTES,
{
    let b = BLOCK_BYTES as int;
    let m = len % b;
    vstd::arithmetic::div_mod::lemma_fundamental_div_mod(len, b);
    if m + header > b {
        let target = len + (b - m);
        assert(target == (len / b + 1) * b) by (nonlinear_arith)
            requires target == len + b - len % b, b == 32768, len >= 0;
        assert(target % b == 0) by (nonlinear_arith)
            requires target == (len / b + 1) * b, b == 32768;
    } else {
        assert((len + 0) % b == m);
    }
}

} // verus!
