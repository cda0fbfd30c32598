use vstd::prelude::*;
use crate::{Error, FLAG_PADDING, MAX_SEGMENT_BYTES};
use crate::record::{Record, RecordIndex, Bytes, spec_record, spec_crc_bytes, spec_record_header_len,
    spec_parse_record};
use crate::segment::{Segment, WriteResult, spec_pad_len, spec_padding_bytes, seg_parse_clean};

verus! {

/// The segments of one data directory: exactly one mutable active segment,
/// whose index is strictly greater than every immutable segment's, and the
/// immutable segments in strictly increasing index order.
pub struct Directory {
    active: Segment,
    old: Vec<Segment>,
    use_mmap: bool,
}

impl Directory {
    pub closed spec fn spec_active(&self) -> Segment {
        self.active
    }

    pub closed spec fn spec_old(&self) -> Seq<Segment> {
        self.old@
    }

    pub closed spec fn spec_use_mmap(&self) -> bool {
        self.use_mmap
    }

    /// The directory's shape: rotation monotonicity.  Immutable segment
    /// indices rise strictly, and the active segment's index tops them all.
    pub open spec fn wf(&self) -> bool {
        &&& self.spec_active().is_mut()
        &&& self.spec_active().wf()
        &&& self.spec_active().idx() >= 1
        &&& forall|i: int| 0 <= i < self.spec_old().len()
            ==> !(#[trigger] self.spec_old()[i]).is_mut()
        &&& forall|i: int, j: int| 0 <= i < j < self.spec_old().len()
            ==> (#[trigger] self.spec_old()[i]).idx() < (#[trigger] self.spec_old()[j]).idx()
        &&& forall|i: int| 0 <= i < self.spec_old().len()
            ==> (#[trigger] self.spec_old()[i]).idx() < self.spec_active().idx()
    }

    /// The contents of the segment named `idx`, if the directory holds it.
    pub open spec fn seg_contents(&self, idx: u64) -> Option<Seq<u8>> {
        if idx == self.spec_active().idx() {
            Some(self.spec_active()@)
        } else if exists|i: int| 0 <= i < self.spec_old().len()
            && (#[trigger] self.spec_old()[i]).idx() == idx {
            let i = choose|i: int| 0 <= i < self.spec_old().len()
                && (#[trigger] self.spec_old()[i]).idx() == idx;
            Some(self.spec_old()[i]@)
        } else {
            None
        }
    }

    /// Open a directory over the segment files found on disk, given as
    /// pairs of numeric index and contents in strictly increasing index
    /// order.  The fresh active segment's index is one past the largest
    /// segment index seen, and past `floor` — the largest index a merge has
    /// compacted, which rebuild skips — so that new writes are never skipped
    /// by a later rebuild.
    pub fn open(segs: Vec<(u64, Vec<u8>)>, use_mmap: bool, floor: u64) -> (r: Result<Directory, Error>)
        ensures
            match r {
                Ok(d) => {
                    &&& d.wf()
                    &&& d.spec_old().len() == segs@.len()
                    &&& forall|i: int| 0 <= i < segs@.len()
                        ==> (#[trigger] d.spec_old()[i]).idx() == segs@[i].0
                            && d.spec_old()[i]@ == segs@[i].1@
                    &&& d.spec_active()@ == Seq::<u8>::empty()
                    &&& d.spec_active().idx() == spec_open_active_index(segs@, floor)
                    &&& d.spec_active().idx() > floor
                    &&& d.spec_use_mmap() == use_mmap
                },
                Err(e) => e == Error::Invariant
                    && !(strictly_increasing(segs@)
                        && (segs@.len() == 0 || segs@.last().0 < u64::MAX)
                        && floor < u64::MAX),
            },
    {
        if floor == u64::MAX {
            return Err(Error::Invariant);
        }
        let n: usize = segs.len();
        let mut i: usize = 1;
        while i < n
            invariant
                i >= 1,
                n == segs@.len(),
                forall|a: int, b: int| 0 <= a < b < i ==> (#[trigger] segs@[a]).0 < (#[trigger] segs@[b]).0,
            decreases n - i,
        {
            if segs[i - 1].0 >= segs[i].0 {
                proof {
                    assert(!strictly_increasing(segs@));
                }
                return Err(Error::Invariant);
            }
            proof {
                assert forall|a: int, b: int| 0 <= a < b < i + 1
                    implies (#[trigger] segs@[a]).0 < (#[trigger] segs@[b]).0 by {
                    if b == i {
                        if a < i - 1 {
                            assert(segs@[a].0 < segs@[i - 1].0);
                        }
                    }
                }
            }
            i = i + 1;
        }
        let active_index: u64 = if n == 0 {
            floor + 1
        } else {
            let last: u64 = segs[n - 1].0;
            if last == u64::MAX {
                return Err(Error::Invariant);
            }
            if last > floor {
                last + 1
            } else {
                floor + 1
            }
        };
        let active = Segment::create(active_index);
        let mut old: Vec<Segment> = Vec::new();
        let mut segs = segs;
        // consume the images front to back
        let mut j: usize = 0;
        let ghost segs0 = segs@;
        while j < n
            invariant
                j <= n,
                n == segs0.len(),
                segs@ == segs0.skip(j as int),
                old@.len() == j,
                forall|a: int| 0 <= a < j ==> (#[trigger] old@[a]).idx() == segs0[a].0
                    && old@[a]@ == segs0[a].1@ && !old@[a].is_mut(),
            decreases n - j,
        {
            let (idx, contents) = segs.remove(0);
            proof {
                assert(segs0.skip(j as int)[0] == segs0[j as int]);
                assert(segs0.skip(j as int).remove(0) =~= segs0.skip(j + 1));
            }
            old.push(Segment::open_read_only(idx, contents));
            j = j + 1;
        }
        let d = Directory { active, old, use_mmap };
        proof {
            assert forall|a: int| 0 <= a < n implies (#[trigger] d.spec_old()[a]).idx() < d.spec_active().idx() by {
                if a < n - 1 {
                    assert(segs0[a].0 < segs0[n - 1].0);
                }
            }
        }
        Ok(d)
    }

    /// Read the record a locator names: from the active segment where the
    /// names match, else from the immutable segment of that name.  A locator
    /// naming no segment of this directory breaks an internal invariant.
    pub fn read_at(&self, ri: &RecordIndex) -> (r: Result<Record, Error>)
        requires
            self.wf(),
        ensures
            self.seg_contents(ri.segment) is None ==> r == Err::<Record, Error>(Error::Invariant),
            self.seg_contents(ri.segment) is Some ==> ({
                let c = self.seg_contents(ri.segment).unwrap();
                &&& ri.offset >= c.len() ==> r is Err && r.unwrap_err() == Error::Corrupt
                &&& ri.offset < c.len() && c[ri.offset as int] & FLAG_PADDING != 0 ==> r is Ok
                    && r.unwrap().flag == c[ri.offset as int]
                    && r.unwrap().key@ == Seq::<u8>::empty()
                    && r.unwrap().value@ == Seq::<u8>::empty()
                &&& ri.offset < c.len() && c[ri.offset as int] & FLAG_PADDING == 0 ==> match r {
                    Ok(rec) => spec_parse_record(c, ri.offset as int) is Some
                        && rec.key@ == spec_parse_record(c, ri.offset as int).unwrap().0
                        && rec.value@ == spec_parse_record(c, ri.offset as int).unwrap().1
                        && rec.flag == spec_parse_record(c, ri.offset as int).unwrap().2,
                    Err(e) => spec_parse_record(c, ri.offset as int) is None && e == Error::Corrupt,
                }
            }),
    {
        if ri.segment == self.active.index() {
            return self.active.read_at(ri.offset);
        }
        let n: usize = self.old.len();
        let mut i: usize = 0;
        while i < n
            invariant
                self.wf(),
                n == self.spec_old().len(),
                i <= n,
                forall|a: int| 0 <= a < i ==> (#[trigger] self.spec_old()[a]).idx() != ri.segment,
            decreases n - i,
        {
            if self.old[i].index() == ri.segment {
                proof {
                    let w = choose|w: int| 0 <= w < self.spec_old().len()
                        && (#[trigger] self.spec_old()[w]).idx() == ri.segment;
                    assert(w == i);
                }
                return self.old[i].read_at(ri.offset);
            }
            i = i + 1;
        }
        proof {
            assert(self.seg_contents(ri.segment) is None);
        }
        Err(Error::Invariant)
    }

    /// Demote the active segment to the immutable set and start a fresh
    /// active segment at the next index.
    fn rotate(&mut self) -> (r: Result<(), Error>)
        requires
            old(self).wf(),
        ensures
            match r {
                Ok(()) => {
                    &&& final(self).wf()
                    &&& final(self).spec_old().len() == old(self).spec_old().len() + 1
                    &&& final(self).spec_old().drop_last() == old(self).spec_old()
                    &&& final(self).spec_old().last().idx() == old(self).spec_active().idx()
                    &&& final(self).spec_old().last()@ == old(self).spec_active()@
                    &&& !final(self).spec_old().last().is_mut()
                    &&& final(self).spec_active().idx() == old(self).spec_active().idx() + 1
                    &&& final(self).spec_active()@ == Seq::<u8>::empty()
                    &&& final(self).spec_use_mmap() == old(self).spec_use_mmap()
                },
                Err(e) => e == Error::Invariant && old(self).spec_active().idx() == u64::MAX
                    && *final(self) == *old(self),
            },
    {
        let idx = self.active.index();
        if idx == u64::MAX {
            return Err(Error::Invariant);
        }
        let mut fresh = Segment::create(idx + 1);
        core::mem::swap(&mut self.active, &mut fresh);
        // `fresh` now holds the previous active segment
        let retired = fresh.into_read_only();
        self.old.push(retired);
        proof {
            let s2 = self.old@;
            let s0 = old(self).spec_old();
            assert(s2.drop_last() =~= s0);
            assert forall|i: int| 0 <= i < s0.len() implies s2[i] == s0[i] by {}
            assert(s2.last().idx() == old(self).spec_active().idx());
        }
        Ok(())
    }

    /// Append a record to the active segment; where the append fills the
    /// segment, rotate.  The returned locator names the segment the record
    /// landed in and the offset of its flag byte.
    pub fn write(&mut self, key: &[u8], value: &[u8], flag: u8) -> (r: Result<RecordIndex, Error>)
        requires
            old(self).wf(),
            flag & FLAG_PADDING == 0,
        ensures
            final(self).wf(),
            final(self).spec_use_mmap() == old(self).spec_use_mmap(),
            r is Ok,
            ({
                let ri = r.unwrap();
                let pad = spec_pad_len(old(self).spec_active()@.len() as int,
                    spec_record_header_len(key@, value@));
                let appended = old(self).spec_active()@ + spec_padding_bytes(pad)
                    + spec_record(key@, value@, flag);
                &&& ri.key@ == key@
                &&& ri.flag == flag
                &&& ri.value is None
                &&& ri.segment == old(self).spec_active().idx()
                &&& ri.offset == old(self).spec_active()@.len() + pad
                &&& if appended.len() >= MAX_SEGMENT_BYTES && old(self).spec_active().idx() < u64::MAX {
                    // the write filled the segment: it was rotated out
                    &&& final(self).spec_old().len() == old(self).spec_old().len() + 1
                    &&& final(self).spec_old().drop_last() == old(self).spec_old()
                    &&& final(self).spec_old().last().idx() == old(self).spec_active().idx()
                    &&& final(self).spec_old().last()@ == appended
                    &&& !final(self).spec_old().last().is_mut()
                    &&& final(self).spec_active().idx() == old(self).spec_active().idx() + 1
                    &&& final(self).spec_active()@ == Seq::<u8>::empty()
                } else {
                    &&& final(self).spec_old() == old(self).spec_old()
                    &&& final(self).spec_active().idx() == old(self).spec_active().idx()
                    &&& final(self).spec_active()@ == appended
                    &&& final(self).spec_active().is_mut()
                }
            }),
    {
        let klen: usize = key.len();
        let vlen: usize = value.len();
        proof {
            assert(key@.len() == klen && value@.len() == vlen);
            crate::segment::lemma_seg_append(self.active@, key@, value@, flag);
        }
        let wr_res = self.active.write(key, value, flag);
        let wr: WriteResult = match wr_res {
            Ok(w) => w,
            Err(_) => {
                proof {
                    assert(false);
                }
                return Err(Error::Invariant);
            },
        };
        let current: u64 = self.active.index();
        let begin_offset: u64 = wr.begin_offset;
        if wr.is_segment_full && current < u64::MAX {
            proof {
                assert(self.spec_old() == old(self).spec_old());
                assert(self.spec_active().idx() == old(self).spec_active().idx());
                assert(seg_parse_clean(self.spec_active()@, 0));
                assert forall|i: int| 0 <= i < self.spec_old().len()
                    implies (#[trigger] self.spec_old()[i]).idx() < self.spec_active().idx() by {
                    assert(old(self).spec_old()[i].idx() < old(self).spec_active().idx());
                }
                assert(self.wf());
            }
            self.rotate()?;
        }
        let mut key_copy: Vec<u8> = Vec::new();
        crate::record::push_all(&mut key_copy, key);
        Ok(RecordIndex {
            key: Bytes::from(key_copy),
            segment: current,
            flag,
            offset: begin_offset,
            value: None,
        })
    }

    /// Force a rotation so the whole current workload is immutable, and say
    /// how many immutable segments there now are: the compaction set.
    pub fn prepare_merge(&mut self) -> (r: Result<usize, Error>)
        requires
            old(self).wf(),
        ensures
            r is Err ==> r.unwrap_err() == Error::Invariant
                && old(self).spec_active().idx() == u64::MAX
                && *final(self) == *old(self),
            r is Ok ==> ({
                &&& final(self).wf()
                &&& r.unwrap() == final(self).spec_old().len()
                &&& final(self).spec_old().len() == old(self).spec_old().len() + 1
                &&& final(self).spec_old().drop_last() == old(self).spec_old()
                &&& final(self).spec_old().last().idx() == old(self).spec_active().idx()
                &&& final(self).spec_old().last()@ == old(self).spec_active()@
                &&& !final(self).spec_old().last().is_mut()
                &&& final(self).spec_active().idx() == old(self).spec_active().idx() + 1
                &&& final(self).spec_active()@ == Seq::<u8>::empty()
                &&& final(self).spec_use_mmap() == old(self).spec_use_mmap()
            }),
    {
        self.rotate()?;
        Ok(self.old.len())
    }

    /// Borrow the immutable segments, in strictly increasing index order.
    pub fn old_segments(&self) -> (r: &Vec<Segment>)
        ensures
            r@ == self.spec_old(),
    {
        &self.old
    }

    /// The active segment's index.
    pub fn active_index(&self) -> (r: u64)
        ensures
            r == self.spec_active().idx(),
    {
        self.active.index()
    }

    /// The active segment's contents, for persisting.
    pub fn active_contents(&self) -> (r: &Vec<u8>)
        ensures
            r@ == self.spec_active()@,
    {
        self.active.contents()
    }

    pub fn use_mmap(&self) -> (r: bool)
        ensures
            r == self.spec_use_mmap(),
    {
        self.use_mmap
    }
}

/// In a well-formed directory each immutable segment is found under its own
/// index.
pub proof fn lemma_old_lookup(d: &Directory, i: int)
    requires
        d.wf(),
        0 <= i < d.spec_old().len(),
    ensures
        d.seg_contents(d.spec_old()[i].idx()) == Some(d.spec_old()[i]@),
{
    let idx = d.spec_old()[i].idx();
    assert(idx != d.spec_active().idx());
    assert(exists|w: int| 0 <= w < d.spec_old().len() && (#[trigger] d.spec_old()[w]).idx() == idx);
    let w = choose|w: int| 0 <= w < d.spec_old().len() && (#[trigger] d.spec_old()[w]).idx() == idx;
    if w < i {
        assert(d.spec_old()[w].idx() < d.spec_old()[i].idx());
    }
    if w > i {
        assert(d.spec_old()[i].idx() < d.spec_old()[w].idx());
    }
}

/// An index no segment carries resolves to nothing.
pub proof fn lemma_lookup_none(d: &Directory, idx: u64)
    requires
        idx != d.spec_active().idx(),
        forall|i: int| 0 <= i < d.spec_old().len() ==> (#[trigger] d.spec_old()[i]).idx() != idx,
    ensures
        d.seg_contents(idx) is None,
{
}

/// Segment images arrive sorted by index, strictly.
pub open spec fn strictly_increasing(s: Seq<(u64, Vec<u8>)>) -> bool {
    forall|a: int, b: int| 0 <= a < b < s.len() ==> (#[trigger] s[a]).0 < (#[trigger] s[b]).0
}

/// The index a fresh active segment gets: one past both the largest segment
/// index on disk and the merge floor.
pub open spec fn spec_open_active_index(segs: Seq<(u64, Vec<u8>)>, floor: u64) -> u64 {
    if segs.len() == 0 || segs.last().0 <= floor {
        (floor + 1) as u64
    } else {
        (segs.last().0 + 1) as u64
    }
}

} // verus!
