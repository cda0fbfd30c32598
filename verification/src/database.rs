use vstd::prelude::*;
use crate::{Error, FLAG_DELETED, FLAG_PADDING};
use crate::record::{Bytes, RecordIndex, spec_record, spec_crc_bytes, spec_record_header_len,
    spec_parse_record, lemma_record_round_trip, lemma_parse_record_extend};
use crate::segment::{Segment, SegEntry, spec_seg_records, seg_entries_crc_ok, seg_parse_clean,
    spec_pad_len, spec_padding_bytes, lemma_seg_append};
use crate::directory::Directory;
use crate::index::{Index, Locator, entries_map};
use crate::hint::{spec_parse_decimal, spec_decode_hint_value};

verus! {

/// Options of `Database::open`: whether immutable segments are read through
/// a memory map.  Both read paths return identical records; the choice only
/// steers the embedding's I/O.
#[derive(Debug, Clone, Copy)]
pub struct Options {
    mmap: bool,
}

impl Options {
    pub closed spec fn spec_mmap(&self) -> bool {
        self.mmap
    }

    pub fn default() -> (r: Self)
        ensures
            r.spec_mmap(),
    {
        Options { mmap: true }
    }

    pub fn mmap(self, enable: bool) -> (r: Self)
        ensures
            r.spec_mmap() == enable,
    {
        Options { mmap: enable }
    }
}

/// The on-disk image of one directory: segment files as (index, contents)
/// in strictly increasing index order, the hint file's contents if present,
/// and the merge-finish marker's contents if present.
pub struct DirImage {
    pub segs: Vec<(u64, Vec<u8>)>,
    pub hint: Option<Vec<u8>>,
    pub finish: Option<Vec<u8>>,
}

/// Segment images at the spec level.
pub type SegImages = Seq<(u64, Seq<u8>)>;

/// A directory image at the spec level: segments, hint, merge-finish.
pub type DirImageV = (SegImages, Option<Seq<u8>>, Option<Seq<u8>>);

pub open spec fn segs_view(s: Seq<(u64, Vec<u8>)>) -> SegImages {
    s.map_values(|p: (u64, Vec<u8>)| (p.0, p.1@))
}

pub open spec fn opt_bytes_view(o: Option<Vec<u8>>) -> Option<Seq<u8>> {
    match o {
        None => None,
        Some(v) => Some(v@),
    }
}

impl View for DirImage {
    type V = DirImageV;

    open spec fn view(&self) -> DirImageV {
        (segs_view(self.segs@), opt_bytes_view(self.hint), opt_bytes_view(self.finish))
    }
}

/// The on-disk image of a store's root: the live data directory and, where a
/// merge has run without a handoff yet, the staging directory.
pub struct RootImage {
    pub data: DirImage,
    pub merged: Option<DirImage>,
}

impl View for RootImage {
    type V = (DirImageV, Option<DirImageV>);

    open spec fn view(&self) -> (DirImageV, Option<DirImageV>) {
        (self.data@, match self.merged {
            None => None,
            Some(d) => Some(d@),
        })
    }
}

/// The contents of the segment named `idx` among a set of images.
pub open spec fn seg_lookup(segs: SegImages, idx: u64) -> Option<Seq<u8>> {
    if exists|i: int| 0 <= i < segs.len() && (#[trigger] segs[i]).0 == idx {
        let i = choose|i: int| 0 <= i < segs.len() && (#[trigger] segs[i]).0 == idx;
        Some(segs[i].1)
    } else {
        None
    }
}

/// One record applied to the index being rebuilt: a tombstone removes its
/// key, any other record points the key at itself.
pub open spec fn replay_step(m: Map<Seq<u8>, Locator>, seg: u64, e: SegEntry) -> Map<Seq<u8>, Locator> {
    if e.3 & FLAG_DELETED != 0 {
        m.remove(e.1)
    } else {
        m.insert(e.1, (seg, e.0 as u64, e.3))
    }
}

/// A whole segment's records applied in order: later records win.
pub open spec fn seg_replay(m: Map<Seq<u8>, Locator>, seg: u64, es: Seq<SegEntry>) -> Map<Seq<u8>, Locator>
    decreases es.len(),
{
    if es.len() == 0 {
        m
    } else {
        replay_step(seg_replay(m, seg, es.drop_last()), seg, es.last())
    }
}

/// Segments replayed in ascending index order on top of a base mapping;
/// segments at or below `floor` were compacted into the hint and are
/// skipped.  None where a replayed segment is corrupt.
pub open spec fn segs_replay(m: Map<Seq<u8>, Locator>, segs: SegImages, floor: u64)
    -> Option<Map<Seq<u8>, Locator>>
    decreases segs.len(),
{
    if segs.len() == 0 {
        Some(m)
    } else {
        match segs_replay(m, segs.drop_last(), floor) {
            None => None,
            Some(m2) => {
                let (idx, c) = segs.last();
                if idx <= floor {
                    Some(m2)
                } else {
                    match spec_seg_records(c, 0) {
                        None => None,
                        Some(es) => if seg_entries_crc_ok(es) {
                            Some(seg_replay(m2, idx, es))
                        } else {
                            None
                        },
                    }
                }
            },
        }
    }
}

/// Whether a hint entry's locator resolves to a live record with the
/// entry's own key.
pub open spec fn hint_entry_ok(e: SegEntry, segs: SegImages) -> bool {
    match spec_decode_hint_value(e.2) {
        None => false,
        Some((sidx, off)) => match seg_lookup(segs, sidx) {
            None => false,
            Some(c) => {
                &&& off < c.len()
                &&& c[off as int] & FLAG_PADDING == 0
                &&& spec_parse_record(c, off as int) is Some
                &&& spec_parse_record(c, off as int).unwrap().0 == e.1
                &&& spec_parse_record(c, off as int).unwrap().2 & FLAG_DELETED == 0
            },
        },
    }
}

/// The base mapping a hint file yields: each entry validated against the
/// segment it points into, then inserted.  None where an entry is corrupt
/// or dangling.
pub open spec fn hint_fold(hes: Seq<SegEntry>, segs: SegImages) -> Option<Map<Seq<u8>, Locator>>
    decreases hes.len(),
{
    if hes.len() == 0 {
        Some(Map::empty())
    } else {
        match hint_fold(hes.drop_last(), segs) {
            None => None,
            Some(m) => {
                let e = hes.last();
                if hint_entry_ok(e, segs) {
                    let (sidx, off) = spec_decode_hint_value(e.2).unwrap();
                    Some(m.insert(e.1, (sidx, off, 0u8)))
                } else {
                    None
                }
            },
        }
    }
}

/// Rebuilding the index over segments, a hint, and an already-parsed floor:
/// the hint supplies the base mapping and segments at or below the floor
/// are skipped.
pub open spec fn spec_load(segs: SegImages, hint: Option<Seq<u8>>, floor: u64)
    -> Option<Map<Seq<u8>, Locator>>
{
    match hint {
        None => segs_replay(Map::empty(), segs, floor),
        Some(hb) => match spec_seg_records(hb, 0) {
            None => None,
            Some(hes) => if !seg_entries_crc_ok(hes) {
                None
            } else {
                match hint_fold(hes, segs) {
                    None => None,
                    Some(base) => segs_replay(base, segs, floor),
                }
            },
        },
    }
}

/// Rebuilding the index from a data directory image: with a hint file, the
/// merge-finish marker names the compacted floor, the hint supplies the base
/// mapping, and only segments above the floor are replayed; without one,
/// every segment is replayed from an empty base.
pub open spec fn spec_rebuild(segs: SegImages, hint: Option<Seq<u8>>, finish: Option<Seq<u8>>)
    -> Option<Map<Seq<u8>, Locator>>
{
    match hint {
        None => spec_load(segs, None, 0),
        Some(hb) => match finish {
            None => None,
            Some(fb) => match spec_parse_decimal(fb) {
                None => None,
                Some(maxm) => spec_load(segs, Some(hb), maxm),
            },
        },
    }
}

/// Every key of `m` points at a live record frame, physically present in a
/// segment of `d`, holding that very key.
pub open spec fn index_resolves(m: Map<Seq<u8>, Locator>, d: Directory) -> bool {
    forall|k: Seq<u8>| #[trigger] m.contains_key(k) ==> {
        let l = m[k];
        &&& d.seg_contents(l.0) is Some
        &&& l.1 < d.seg_contents(l.0).unwrap().len()
        &&& d.seg_contents(l.0).unwrap()[l.1 as int] & FLAG_PADDING == 0
        &&& spec_parse_record(d.seg_contents(l.0).unwrap(), l.1 as int) is Some
        &&& spec_parse_record(d.seg_contents(l.0).unwrap(), l.1 as int).unwrap().0 == k
        &&& spec_parse_record(d.seg_contents(l.0).unwrap(), l.1 as int).unwrap().2 & FLAG_DELETED == 0
    }
}

/// The value the store returns for a key, given the rebuilt locators and the
/// segments they point into.
pub open spec fn materialize(m: Map<Seq<u8>, Locator>, segs: SegImages) -> Map<Seq<u8>, Seq<u8>> {
    Map::new(
        |k: Seq<u8>| m.contains_key(k),
        |k: Seq<u8>| spec_parse_record(seg_lookup(segs, m[k].0).unwrap(), m[k].1 as int).unwrap().1,
    )
}

/// The store: an in-memory index over an append-only segment directory,
/// plus the hint and merge-finish bytes the data directory holds and any
/// staged merge output awaiting handoff.
pub struct Database {
    index: Index,
    storage: Directory,
    data_hint: Option<Vec<u8>>,
    data_finish: Option<Vec<u8>>,
    merged: Option<DirImage>,
}

impl View for Database {
    type V = Map<Seq<u8>, Seq<u8>>;

    closed spec fn view(&self) -> Map<Seq<u8>, Seq<u8>> {
        materialize(self.index@, self.spec_data_segs())
    }
}

impl Database {
    pub closed spec fn spec_index(&self) -> Map<Seq<u8>, Locator> {
        self.index@
    }

    pub closed spec fn spec_storage(&self) -> Directory {
        self.storage
    }

    pub closed spec fn spec_hint(&self) -> Option<Seq<u8>> {
        opt_bytes_view(self.data_hint)
    }

    pub closed spec fn spec_finish(&self) -> Option<Seq<u8>> {
        opt_bytes_view(self.data_finish)
    }

    pub closed spec fn spec_merged(&self) -> Option<DirImageV> {
        match self.merged {
            None => None,
            Some(d) => Some(d@),
        }
    }

    /// The segment images the current state would persist as: the immutable
    /// segments, then the active segment, in ascending index order.
    pub closed spec fn spec_data_segs(&self) -> SegImages {
        self.storage.spec_old().map_values(|s: Segment| (s.idx(), s@))
            .push((self.storage.spec_active().idx(), self.storage.spec_active()@))
    }

    /// The whole data directory image the current state would persist as.
    pub open spec fn spec_data_image(&self) -> DirImageV {
        (self.spec_data_segs(), self.spec_hint(), self.spec_finish())
    }

    /// The store's invariant.
    ///
    /// Every key in the index points at a live record frame, physically
    /// present in a segment of the directory, whose key is that key; and
    /// rebuilding from the persisted image yields exactly the index — the
    /// heart of restart durability.
    pub closed spec fn wf(&self) -> bool {
        &&& self.index.wf()
        &&& self.storage.wf()
        &&& index_resolves(self.index@, self.storage)
        &&& spec_rebuild(self.spec_data_segs(), self.spec_hint(), self.spec_finish())
            == Some(self.index@)
        &&& (self.spec_hint() is Some ==> self.spec_finish() is Some
            && spec_parse_decimal(self.spec_finish().unwrap()) is Some
            && self.storage.spec_active().idx()
                > spec_parse_decimal(self.spec_finish().unwrap()).unwrap())
        &&& (self.spec_hint() is None ==> self.storage.spec_active().idx() > 0)
    }
}

/// No two segment images share an index.
pub open spec fn segs_distinct(ss: SegImages) -> bool {
    forall|i: int, j: int| 0 <= i < j < ss.len() ==> (#[trigger] ss[i]).0 != (#[trigger] ss[j]).0
}

/// With distinct indices, lookup finds each image under its own index.
pub proof fn lemma_seg_lookup_at(ss: SegImages, i: int)
    requires
        segs_distinct(ss),
        0 <= i < ss.len(),
    ensures
        seg_lookup(ss, ss[i].0) == Some(ss[i].1),
{
    let idx = ss[i].0;
    assert(exists|w: int| 0 <= w < ss.len() && (#[trigger] ss[w]).0 == idx);
    let w = choose|w: int| 0 <= w < ss.len() && (#[trigger] ss[w]).0 == idx;
    if w != i {
        assert(ss[if w < i { w } else { i }].0 != ss[if w < i { i } else { w }].0);
    }
}

/// The image list a directory denotes, and its correspondence with the
/// directory's own lookup.
pub open spec fn dir_segs(d: Directory) -> SegImages {
    d.spec_old().map_values(|s: Segment| (s.idx(), s@))
        .push((d.spec_active().idx(), d.spec_active()@))
}

pub proof fn lemma_dir_segs_distinct(d: Directory)
    requires
        d.wf(),
    ensures
        segs_distinct(dir_segs(d)),
        forall|i: int| 0 <= i < dir_segs(d).len()
            ==> (#[trigger] dir_segs(d)[i]).0 <= d.spec_active().idx(),
{
    let ss = dir_segs(d);
    assert forall|i: int, j: int| 0 <= i < j < ss.len()
        implies (#[trigger] ss[i]).0 != (#[trigger] ss[j]).0 by {
        if j < ss.len() - 1 {
            assert(d.spec_old()[i].idx() < d.spec_old()[j].idx());
        } else if i < ss.len() - 1 {
            assert(d.spec_old()[i].idx() < d.spec_active().idx());
        }
    }
    assert forall|i: int| 0 <= i < ss.len()
        implies (#[trigger] ss[i]).0 <= d.spec_active().idx() by {
        if i < ss.len() - 1 {
            assert(d.spec_old()[i].idx() < d.spec_active().idx());
        }
    }
}

/// A directory's lookup and its image list agree.
pub proof fn lemma_dir_segs_lookup(d: Directory, idx: u64)
    requires
        d.wf(),
    ensures
        seg_lookup(dir_segs(d), idx) == d.seg_contents(idx),
{
    let ss = dir_segs(d);
    lemma_dir_segs_distinct(d);
    if idx == d.spec_active().idx() {
        lemma_seg_lookup_at(ss, ss.len() - 1);
    } else if exists|i: int| 0 <= i < d.spec_old().len()
        && (#[trigger] d.spec_old()[i]).idx() == idx {
        let i = choose|i: int| 0 <= i < d.spec_old().len()
            && (#[trigger] d.spec_old()[i]).idx() == idx;
        crate::directory::lemma_old_lookup(&d, i);
        assert(ss[i].0 == idx && ss[i].1 == d.spec_old()[i]@);
        lemma_seg_lookup_at(ss, i);
    } else {
        if seg_lookup(ss, idx) is Some {
            let w = choose|w: int| 0 <= w < ss.len() && (#[trigger] ss[w]).0 == idx;
            assert(w == ss.len() - 1);
        }
    }
}

/// Appending one record to the last (active) segment image turns the
/// replayed mapping `M` into `replay_step(M, ...)`; a fresh empty segment
/// after it changes nothing.
pub proof fn lemma_replay_append(
    base_m: Map<Seq<u8>, Locator>, base: SegImages, aidx: u64, c: Seq<u8>,
    key: Seq<u8>, value: Seq<u8>, flag: u8, floor: u64,
)
    requires
        aidx > floor,
        seg_parse_clean(c, 0),
        flag & FLAG_PADDING == 0,
        key.len() <= u64::MAX,
        value.len() <= u64::MAX,
        segs_replay(base_m, base.push((aidx, c)), floor) is Some,
    ensures
        ({
            let pad = spec_pad_len(c.len() as int, spec_record_header_len(key, value));
            let c2 = c + spec_padding_bytes(pad) + spec_record(key, value, flag);
            let e: SegEntry = (c.len() as int + pad, key, value, flag, spec_crc_bytes(key, value));
            let m1 = replay_step(segs_replay(base_m, base.push((aidx, c)), floor).unwrap(), aidx, e);
            &&& segs_replay(base_m, base.push((aidx, c2)), floor) == Some(m1)
            &&& forall|fresh: u64| segs_replay(base_m, base.push((aidx, c2)).push((fresh, Seq::<u8>::empty())), floor)
                == Some(m1)
        }),
{
    let pad = spec_pad_len(c.len() as int, spec_record_header_len(key, value));
    let c2 = c + spec_padding_bytes(pad) + spec_record(key, value, flag);
    let e: SegEntry = (c.len() as int + pad, key, value, flag, spec_crc_bytes(key, value));
    let ss0 = base.push((aidx, c));
    let ss1 = base.push((aidx, c2));
    assert(ss0.drop_last() =~= base);
    assert(ss1.drop_last() =~= base);
    let m2 = segs_replay(base_m, base, floor).unwrap();
    let es = spec_seg_records(c, 0).unwrap();
    assert(seg_entries_crc_ok(es));
    lemma_seg_append(c, key, value, flag);
    let es2 = spec_seg_records(c2, 0).unwrap();
    assert(es2 == es + seq![e]);
    assert(seg_entries_crc_ok(es2)) by {
        assert forall|i: int| 0 <= i < es2.len()
            implies #[trigger] es2[i].4 == spec_crc_bytes(es2[i].1, es2[i].2) by {
            if i < es.len() {
                assert(es2[i] == es[i]);
            } else {
                assert(es2[i] == e);
            }
        }
    };
    assert(es2.drop_last() =~= es);
    assert(es2.last() == e);
    assert(seg_replay(m2, aidx, es2) == replay_step(seg_replay(m2, aidx, es), aidx, e));
    let m1 = replay_step(segs_replay(base_m, ss0, floor).unwrap(), aidx, e);
    assert(segs_replay(base_m, ss1, floor) == Some(m1));
    assert forall|fresh: u64| segs_replay(base_m, ss1.push((fresh, Seq::<u8>::empty())), floor)
        == Some(m1) by {
        let ss2 = ss1.push((fresh, Seq::<u8>::empty()));
        assert(ss2.drop_last() =~= ss1);
        if fresh > floor {
            assert(spec_seg_records(Seq::<u8>::empty(), 0) == Some(Seq::<SegEntry>::empty()));
            assert(seg_replay(m1, fresh, Seq::<SegEntry>::empty()) == m1);
        }
    }
}

/// A hint base survives the growth of the segments it points into: where
/// every image is kept or only extended, every entry resolves as before.
pub proof fn lemma_hint_fold_extend(hes: Seq<SegEntry>, ss0: SegImages, ss1: SegImages)
    requires
        hint_fold(hes, ss0) is Some,
        forall|idx: u64| (#[trigger] seg_lookup(ss0, idx)) is Some
            ==> seg_lookup(ss1, idx) is Some
                && seg_lookup(ss1, idx).unwrap().len() >= seg_lookup(ss0, idx).unwrap().len()
                && seg_lookup(ss1, idx).unwrap().subrange(0, seg_lookup(ss0, idx).unwrap().len() as int)
                    == seg_lookup(ss0, idx).unwrap(),
    ensures
        hint_fold(hes, ss1) == hint_fold(hes, ss0),
    decreases hes.len(),
{
    if hes.len() == 0 {
    } else {
        lemma_hint_fold_extend(hes.drop_last(), ss0, ss1);
        let e = hes.last();
        assert(hint_entry_ok(e, ss0));
        let (sidx, off) = spec_decode_hint_value(e.2).unwrap();
        let c = seg_lookup(ss0, sidx).unwrap();
        let c1 = seg_lookup(ss1, sidx).unwrap();
        assert(c1.subrange(0, c.len() as int) == c);
        let ext = c1.skip(c.len() as int);
        assert(c1 =~= c + ext);
        assert(c1[off as int] == c[off as int]);
        lemma_parse_record_extend(c, ext, off as int);
        assert(hint_entry_ok(e, ss1));
    }
}

/// The data segments that survive a handoff: those above the compacted
/// floor, kept in the order they stood in.
pub open spec fn segs_above(ss: SegImages, floor: u64) -> SegImages
    decreases ss.len(),
{
    if ss.len() == 0 {
        Seq::empty()
    } else if ss.last().0 > floor {
        segs_above(ss.drop_last(), floor).push(ss.last())
    } else {
        segs_above(ss.drop_last(), floor)
    }
}

/// The crash-safe merge handoff on images.  No staging directory: nothing.
/// Staging without a merge-finish marker: an interrupted merge, discarded.
/// A finished one: its segments replace every data segment at or below the
/// compacted floor; hint and marker are copied.  None where the marker does
/// not parse or staged segments would collide with surviving ones.
pub open spec fn spec_handoff(root: (DirImageV, Option<DirImageV>)) -> Option<DirImageV> {
    match root.1 {
        None => Some(root.0),
        Some(m) => match m.2 {
            None => Some(root.0),
            Some(fb) => match spec_parse_decimal(fb) {
                None => None,
                Some(maxm) => if exists|i: int| 0 <= i < m.0.len() && (#[trigger] m.0[i]).0 > maxm {
                    None
                } else {
                    Some((
                        m.0 + segs_above(root.0.0, maxm),
                        if m.1 is Some { m.1 } else { root.0.1 },
                        Some(fb),
                    ))
                },
            },
        },
    }
}

pub open spec fn image_increasing(ss: SegImages) -> bool {
    forall|a: int, b: int| 0 <= a < b < ss.len() ==> (#[trigger] ss[a]).0 < (#[trigger] ss[b]).0
}

/// The compaction floor a data directory image names: the parsed
/// merge-finish marker when a hint is in play, zero otherwise.
pub open spec fn spec_open_floor(d: DirImageV) -> u64 {
    match d.1 {
        None => 0,
        Some(_) => match d.2 {
            None => 0,
            Some(fb) => match spec_parse_decimal(fb) {
                None => 0,
                Some(v) => v,
            },
        },
    }
}

/// When an open of a data directory image succeeds: a hint file demands a
/// parseable merge-finish marker; segment indices rise strictly and leave
/// room for a fresh active index; and the rebuild goes through.
pub open spec fn spec_open_ok_of(d: DirImageV) -> bool {
    &&& (d.1 is Some ==> d.2 is Some && spec_parse_decimal(d.2.unwrap()) is Some)
    &&& image_increasing(d.0)
    &&& (d.0.len() == 0 || d.0.last().0 < u64::MAX)
    &&& spec_open_floor(d) < u64::MAX
    &&& spec_load(d.0, d.1, spec_open_floor(d)) is Some
}

/// The index the fresh active segment gets when opening over this data
/// directory image: one past both the largest segment index and the
/// compaction floor, so later rebuilds never skip it.
pub open spec fn spec_active_index_of(d: DirImageV) -> u64 {
    let floor = spec_open_floor(d);
    if d.0.len() == 0 || d.0.last().0 <= floor {
        (floor + 1) as u64
    } else {
        (d.0.last().0 + 1) as u64
    }
}

/// The key-to-value mapping an open of this data directory image yields.
pub open spec fn spec_open_view_of(d: DirImageV) -> Option<Map<Seq<u8>, Seq<u8>>> {
    if spec_open_ok_of(d) {
        Some(materialize(spec_load(d.0, d.1, spec_open_floor(d)).unwrap(), d.0))
    } else {
        None
    }
}

/// The key-to-value mapping an open of this root image yields: the handoff
/// folded in, then the data directory rebuilt.
pub open spec fn spec_open_view(root: (DirImageV, Option<DirImageV>)) -> Option<Map<Seq<u8>, Seq<u8>>> {
    match spec_handoff(root) {
        None => None,
        Some(d) => spec_open_view_of(d),
    }
}

/// The image list of a directory's immutable segments alone.
pub open spec fn dir_old_segs(d: Directory) -> SegImages {
    d.spec_old().map_values(|s: Segment| (s.idx(), s@))
}

/// Immutable-segment lookup agrees with the directory for every index but
/// the active segment's, which the immutable list does not hold.
pub proof fn lemma_dir_old_segs_lookup(d: Directory, idx: u64)
    requires
        d.wf(),
    ensures
        idx != d.spec_active().idx() ==> seg_lookup(dir_old_segs(d), idx) == d.seg_contents(idx),
        idx == d.spec_active().idx() ==> seg_lookup(dir_old_segs(d), idx) is None,
{
    let ss = dir_old_segs(d);
    assert(segs_distinct(ss)) by {
        assert forall|i: int, j: int| 0 <= i < j < ss.len()
            implies (#[trigger] ss[i]).0 != (#[trigger] ss[j]).0 by {
            assert(d.spec_old()[i].idx() < d.spec_old()[j].idx());
        }
    };
    if idx == d.spec_active().idx() {
        if seg_lookup(ss, idx) is Some {
            let w = choose|w: int| 0 <= w < ss.len() && (#[trigger] ss[w]).0 == idx;
            assert(d.spec_old()[w].idx() < d.spec_active().idx());
        }
    } else if exists|i: int| 0 <= i < d.spec_old().len()
        && (#[trigger] d.spec_old()[i]).idx() == idx {
        let i = choose|i: int| 0 <= i < d.spec_old().len()
            && (#[trigger] d.spec_old()[i]).idx() == idx;
        crate::directory::lemma_old_lookup(&d, i);
        assert(ss[i].0 == idx);
        lemma_seg_lookup_at(ss, i);
    } else {
        crate::directory::lemma_lookup_none(&d, idx);
        if seg_lookup(ss, idx) is Some {
            let w = choose|w: int| 0 <= w < ss.len() && (#[trigger] ss[w]).0 == idx;
            assert(d.spec_old()[w].idx() == idx);
        }
    }
}

/// A corrupt prefix poisons the whole hint fold.
pub proof fn lemma_hint_fold_prefix_none(hes: Seq<SegEntry>, segs: SegImages, k: int)
    requires
        0 <= k <= hes.len(),
        hint_fold(hes.take(k), segs) is None,
    ensures
        hint_fold(hes, segs) is None,
    decreases hes.len() - k,
{
    if k == hes.len() {
        assert(hes.take(k) =~= hes);
    } else {
        assert(hes.take(k + 1).drop_last() =~= hes.take(k));
        lemma_hint_fold_prefix_none(hes, segs, k + 1);
    }
}

/// A corrupt segment poisons the whole replay.
pub proof fn lemma_segs_replay_prefix_none(m: Map<Seq<u8>, Locator>, ss: SegImages, floor: u64, k: int)
    requires
        0 <= k <= ss.len(),
        segs_replay(m, ss.take(k), floor) is None,
    ensures
        segs_replay(m, ss, floor) is None,
    decreases ss.len() - k,
{
    if k == ss.len() {
        assert(ss.take(k) =~= ss);
    } else {
        assert(ss.take(k + 1).drop_last() =~= ss.take(k));
        lemma_segs_replay_prefix_none(m, ss, floor, k + 1);
    }
}

/// How one append changes the persisted segments: the record, framed with
/// its padding, lands at the tail of the segment that was active, a fresh
/// empty active segment appears only on rotation, and no other segment
/// moves.
pub open spec fn record_appended(pre: Database, post: Database, key: Seq<u8>, value: Seq<u8>, flag: u8) -> bool {
    let aidx = pre.spec_storage().spec_active().idx();
    let c = pre.spec_storage().spec_active()@;
    let appended = c + spec_padding_bytes(spec_pad_len(c.len() as int,
        spec_record_header_len(key, value))) + spec_record(key, value, flag);
    &&& post.spec_storage().seg_contents(aidx) == Some(appended)
    &&& (post.spec_storage().spec_active().idx() == aidx
        ==> post.spec_storage().spec_active()@ == appended)
    &&& (post.spec_storage().spec_active().idx() != aidx
        ==> post.spec_storage().spec_active().idx() == aidx + 1
            && post.spec_storage().spec_active()@ == Seq::<u8>::empty())
    &&& forall|idx: u64| idx != aidx && idx != post.spec_storage().spec_active().idx()
        ==> post.spec_storage().seg_contents(idx) == pre.spec_storage().seg_contents(idx)
}

impl Database {
    /// The shared effect of appending one record and retargeting the index:
    /// after the append reported by `Directory::write`, rebuilding the new
    /// image yields the old index with that record applied, every old
    /// locator still resolves to the same record, and the new record parses
    /// at its locator.
    proof fn lemma_append_effect(
        pre: Database, post_storage: Directory, key: Seq<u8>, value: Seq<u8>, flag: u8,
    )
        requires
            pre.wf(),
            flag & FLAG_PADDING == 0,
            key.len() <= u64::MAX,
            value.len() <= u64::MAX,
            ({
                let aidx = pre.storage.spec_active().idx();
                let c = pre.storage.spec_active()@;
                let pad = spec_pad_len(c.len() as int, spec_record_header_len(key, value));
                let c2 = c + spec_padding_bytes(pad) + spec_record(key, value, flag);
                &&& post_storage.wf()
                &&& (post_storage.spec_old() == pre.storage.spec_old()
                        && post_storage.spec_active().idx() == aidx
                        && post_storage.spec_active()@ == c2)
                    || (post_storage.spec_old().len() == pre.storage.spec_old().len() + 1
                        && post_storage.spec_old().drop_last() == pre.storage.spec_old()
                        && post_storage.spec_old().last().idx() == aidx
                        && post_storage.spec_old().last()@ == c2
                        && post_storage.spec_active().idx() == aidx + 1
                        && post_storage.spec_active()@ == Seq::<u8>::empty())
            }),
        ensures
            ({
                let aidx = pre.storage.spec_active().idx();
                let c = pre.storage.spec_active()@;
                let pad = spec_pad_len(c.len() as int, spec_record_header_len(key, value));
                let c2 = c + spec_padding_bytes(pad) + spec_record(key, value, flag);
                let rs = c.len() as int + pad;
                let e: SegEntry = (rs, key, value, flag, spec_crc_bytes(key, value));
                let ss1 = dir_segs(post_storage);
                &&& spec_rebuild(ss1, pre.spec_hint(), pre.spec_finish())
                    == Some(replay_step(pre.index@, aidx, e))
                &&& post_storage.seg_contents(aidx) == Some(c2)
                &&& spec_parse_record(c2, rs)
                    == Some((key, value, flag, spec_crc_bytes(key, value),
                        spec_record(key, value, flag).len() as int))
                &&& c2[rs] == flag
                &&& rs + spec_record(key, value, flag).len() == c2.len()
                &&& forall|idx: u64| idx != aidx && (#[trigger] pre.storage.seg_contents(idx)) is Some
                    ==> post_storage.seg_contents(idx) == pre.storage.seg_contents(idx)
                &&& forall|idx: u64| (#[trigger] pre.storage.seg_contents(idx)) is None
                        && idx != post_storage.spec_active().idx()
                    ==> post_storage.seg_contents(idx) is None
            }),
    {
        let aidx = pre.storage.spec_active().idx();
        let c = pre.storage.spec_active()@;
        let pad = spec_pad_len(c.len() as int, spec_record_header_len(key, value));
        let pb = spec_padding_bytes(pad);
        let rec = spec_record(key, value, flag);
        let c2 = c + pb + rec;
        let rs = c.len() as int + pad;
        let e: SegEntry = (rs, key, value, flag, spec_crc_bytes(key, value));
        let base = pre.storage.spec_old().map_values(|s: Segment| (s.idx(), s@));
        let ss0 = dir_segs(pre.storage);
        let ss1 = dir_segs(post_storage);
        assert(ss0 == base.push((aidx, c)));
        let rotated = post_storage.spec_active().idx() != aidx;
        // the shape of the new image list
        if rotated {
            assert(post_storage.spec_old().map_values(|s: Segment| (s.idx(), s@))
                =~= base.push((aidx, c2))) by {
                let lhs = post_storage.spec_old().map_values(|s: Segment| (s.idx(), s@));
                assert forall|i: int| 0 <= i < lhs.len() implies lhs[i] == base.push((aidx, c2))[i] by {
                    if i < post_storage.spec_old().len() - 1 {
                        assert(post_storage.spec_old()[i]
                            == post_storage.spec_old().drop_last()[i]);
                    }
                }
            };
            assert(ss1 =~= base.push((aidx, c2)).push(((aidx + 1) as u64, Seq::<u8>::empty())));
        } else {
            assert(ss1 =~= base.push((aidx, c2)));
        }
        // the new record parses at its offset
        assert(c2.subrange(rs, rs + rec.len() as int) =~= rec);
        lemma_record_round_trip(c2, rs, key, value, flag);
        assert(c2[rs] == rec[0]);
        // rebuild of the new image
        assert(seg_parse_clean(c, 0));
        if pre.spec_hint() is None {
            assert(segs_replay(Map::empty(), ss0, 0) == Some(pre.index@));
            lemma_replay_append(Map::empty(), base, aidx, c, key, value, flag, 0);
        } else {
            let fb = pre.spec_finish().unwrap();
            let maxm = spec_parse_decimal(fb).unwrap();
            let hb = pre.spec_hint().unwrap();
            let hes = spec_seg_records(hb, 0).unwrap();
            let bm = hint_fold(hes, ss0).unwrap();
            assert(segs_replay(bm, ss0, maxm) == Some(pre.index@));
            lemma_dir_segs_distinct(pre.storage);
            lemma_dir_segs_distinct(post_storage);
            assert forall|idx: u64| (#[trigger] seg_lookup(ss0, idx)) is Some
                implies seg_lookup(ss1, idx) is Some
                    && seg_lookup(ss1, idx).unwrap().len() >= seg_lookup(ss0, idx).unwrap().len()
                    && seg_lookup(ss1, idx).unwrap().subrange(0, seg_lookup(ss0, idx).unwrap().len() as int)
                        == seg_lookup(ss0, idx).unwrap() by {
                let w = choose|w: int| 0 <= w < ss0.len() && (#[trigger] ss0[w]).0 == idx;
                lemma_seg_lookup_at(ss0, w);
                if w < ss0.len() - 1 {
                    assert(ss1[w] == ss0[w]);
                    lemma_seg_lookup_at(ss1, w);
                    assert(seg_lookup(ss1, idx).unwrap().subrange(0, seg_lookup(ss0, idx).unwrap().len() as int)
                        =~= seg_lookup(ss0, idx).unwrap());
                } else {
                    assert(idx == aidx);
                    assert(ss1[w] == (aidx, c2));
                    lemma_seg_lookup_at(ss1, w);
                    assert(c2.subrange(0, c.len() as int) =~= c);
                }
            }
            lemma_hint_fold_extend(hes, ss0, ss1);
            lemma_replay_append(bm, base, aidx, c, key, value, flag, maxm);
        }
        // lookup of the written segment
        lemma_dir_segs_distinct(post_storage);
        if rotated {
            crate::directory::lemma_old_lookup(&post_storage, post_storage.spec_old().len() - 1);
        }
        // other segments keep their contents
        assert forall|idx: u64| idx != aidx && (#[trigger] pre.storage.seg_contents(idx)) is Some
            implies post_storage.seg_contents(idx) == pre.storage.seg_contents(idx) by {
            lemma_dir_segs_lookup(pre.storage, idx);
            lemma_dir_segs_lookup(post_storage, idx);
            let w = choose|w: int| 0 <= w < ss0.len() && (#[trigger] ss0[w]).0 == idx;
            lemma_dir_segs_distinct(pre.storage);
            lemma_seg_lookup_at(ss0, w);
            assert(w < ss0.len() - 1);
            assert(ss1[w] == ss0[w]);
            lemma_seg_lookup_at(ss1, w);
        }
        assert forall|idx: u64| (#[trigger] pre.storage.seg_contents(idx)) is None
                && idx != post_storage.spec_active().idx()
            implies post_storage.seg_contents(idx) is None by {
            lemma_dir_segs_lookup(pre.storage, idx);
            lemma_dir_segs_lookup(post_storage, idx);
            if seg_lookup(ss1, idx) is Some {
                let w = choose|w: int| 0 <= w < ss1.len() && (#[trigger] ss1[w]).0 == idx;
                if rotated {
                    if w < ss1.len() - 2 {
                        assert(ss0[w] == ss1[w]);
                    } else if w == ss1.len() - 2 {
                        assert(ss1[w].0 == aidx);
                        assert(ss0[ss0.len() - 1].0 == aidx);
                    }
                } else {
                    if w < ss1.len() - 1 {
                        assert(ss0[w] == ss1[w]);
                    } else {
                        assert(ss0[ss0.len() - 1].0 == aidx);
                    }
                }
            }
        }
        lemma_dir_segs_lookup(post_storage, aidx);
    }

    /// Append one record and retarget the index: the whole write / delete
    /// path, with `flag` zero for a write and the tombstone bit for a
    /// delete.
    fn apply_record(&mut self, key: &[u8], value: &[u8], flag: u8) -> (r: Result<(), Error>)
        requires
            old(self).wf(),
            flag == 0 || flag == FLAG_DELETED,
        ensures
            r is Ok,
            final(self).wf(),
            flag == 0 ==> final(self)@ == old(self)@.insert(key@, value@),
            flag == FLAG_DELETED ==> final(self)@ == old(self)@.remove(key@),
            final(self).spec_merged() == old(self).spec_merged(),
            final(self).spec_hint() == old(self).spec_hint(),
            final(self).spec_finish() == old(self).spec_finish(),
            final(self).spec_storage().spec_use_mmap() == old(self).spec_storage().spec_use_mmap(),
            final(self).spec_storage().spec_active().idx()
                >= old(self).spec_storage().spec_active().idx(),
            final(self).spec_storage().spec_active().idx()
                <= old(self).spec_storage().spec_active().idx() + 1,
            record_appended(*old(self), *final(self), key@, value@, flag),
    {
        proof {
            assert(0u8 & FLAG_PADDING == 0u8 && FLAG_DELETED & FLAG_PADDING == 0u8
                && 0u8 & FLAG_DELETED == 0u8 && FLAG_DELETED & FLAG_DELETED != 0u8) by (bit_vector);
        }
        let ghost pre: Database = *old(self);
        let klen: usize = key.len();
        let vlen: usize = value.len();
        let ri: RecordIndex = match self.storage.write(key, value, flag) {
            Ok(ri) => ri,
            Err(_) => {
                proof {
                    assert(false);
                }
                return Err(Error::Invariant);
            },
        };
        let ghost aidx = pre.storage.spec_active().idx();
        let ghost c = pre.storage.spec_active()@;
        let ghost pad = spec_pad_len(c.len() as int, spec_record_header_len(key@, value@));
        let ghost c2 = c + spec_padding_bytes(pad) + spec_record(key@, value@, flag);
        let ghost rs = c.len() as int + pad;
        let ghost e: SegEntry = (rs, key@, value@, flag, spec_crc_bytes(key@, value@));
        proof {
            Self::lemma_append_effect(pre, self.storage, key@, value@, flag);
        }
        if flag == 0 {
            let res = self.index.set(ri);
            proof {
                assert(res is Ok);
            }
        } else {
            let key_owned = ri.key;
            let res = self.index.delete(&key_owned);
            proof {
                assert(res is Ok);
            }
        }
        proof {
            let post = *self;
            let ss1 = dir_segs(post.storage);
            assert(post.spec_data_segs() == ss1);
            assert(pre.spec_data_segs() == dir_segs(pre.storage));
            // the rebuilt mapping matches the updated index
            if flag == 0 {
                assert(replay_step(pre.index@, aidx, e)
                    == pre.index@.insert(key@, (aidx, rs as u64, 0u8)));
                assert(rs as u64 == c.len() + pad);
                assert(post.index@ == pre.index@.insert(key@, (aidx, rs as u64, flag)));
            } else {
                assert(replay_step(pre.index@, aidx, e) == pre.index@.remove(key@));
                assert(post.index@ == pre.index@.remove(key@));
            }
            assert(spec_rebuild(post.spec_data_segs(), post.spec_hint(), post.spec_finish())
                == Some(post.index@));
            // every index entry still parses at its locator
            assert forall|k: Seq<u8>| #[trigger] post.index@.contains_key(k) implies {
                let l = post.index@[k];
                &&& post.storage.seg_contents(l.0) is Some
                &&& l.1 < post.storage.seg_contents(l.0).unwrap().len()
                &&& post.storage.seg_contents(l.0).unwrap()[l.1 as int] & FLAG_PADDING == 0
                &&& spec_parse_record(post.storage.seg_contents(l.0).unwrap(), l.1 as int) is Some
                &&& spec_parse_record(post.storage.seg_contents(l.0).unwrap(), l.1 as int).unwrap().0 == k
                &&& spec_parse_record(post.storage.seg_contents(l.0).unwrap(), l.1 as int).unwrap().2 & FLAG_DELETED == 0
            } by {
                let l = post.index@[k];
                if flag == 0 && k == key@ {
                    assert(l == (aidx, rs as u64, 0u8));
                    assert(post.storage.seg_contents(aidx) == Some(c2));
                } else {
                    assert(pre.index@.contains_key(k) && pre.index@[k] == l);
                    let c0 = pre.storage.seg_contents(l.0).unwrap();
                    if l.0 == aidx {
                        assert(post.storage.seg_contents(aidx) == Some(c2));
                        assert(c0 == c);
                        let ext = spec_padding_bytes(pad) + spec_record(key@, value@, flag);
                        assert(c2 =~= c + ext);
                        assert(c2[l.1 as int] == c[l.1 as int]);
                        lemma_parse_record_extend(c, ext, l.1 as int);
                    } else {
                        assert(post.storage.seg_contents(l.0) == pre.storage.seg_contents(l.0));
                    }
                }
            }
            // the key-to-value view evolved by exactly this mutation
            let target = if flag == 0 { pre@.insert(key@, value@) } else { pre@.remove(key@) };
            assert forall|k: Seq<u8>| #[trigger] post@.contains_key(k) <==> target.contains_key(k) by {}
            assert forall|k: Seq<u8>| post@.contains_key(k)
                implies #[trigger] post@[k] == target[k] by {
                let l = post.index@[k];
                lemma_dir_segs_lookup(post.storage, l.0);
                if flag == 0 && k == key@ {
                    assert(post@[k] == value@);
                } else {
                    assert(pre.index@.contains_key(k) && pre.index@[k] == l);
                    lemma_dir_segs_lookup(pre.storage, l.0);
                    let c0 = pre.storage.seg_contents(l.0).unwrap();
                    if l.0 == aidx {
                        let ext = spec_padding_bytes(pad) + spec_record(key@, value@, flag);
                        assert(c2 =~= c + ext);
                        lemma_parse_record_extend(c, ext, l.1 as int);
                    }
                }
            }
            assert(post@ =~= target);
            // the floor conjuncts survive: the active index never shrinks
            assert(post.storage.spec_active().idx() >= pre.storage.spec_active().idx());
            // the physical effect: one record appended, nothing else moved
            assert forall|idx: u64| idx != aidx && idx != post.storage.spec_active().idx()
                implies post.storage.seg_contents(idx)
                    == pre.storage.seg_contents(idx) by {
                if pre.storage.seg_contents(idx) is None {
                    assert(post.storage.seg_contents(idx) is None);
                }
            }
            assert(record_appended(pre, post, key@, value@, flag));
        }
        Ok(())
    }

    /// Rebuild the in-memory index from the hint file and the immutable
    /// segments, exactly as `spec_load` describes: hint entries, validated
    /// against the segments they point into, form the base; segments above
    /// the compaction floor are replayed on top, newest last.  Corruption
    /// anywhere is fatal.
    fn load_index(index: &mut Index, dir: &Directory, hint: &Option<Vec<u8>>, floor: u64)
        -> (r: Result<(), Error>)
        requires
            dir.wf(),
            old(index).wf(),
            old(index)@ == Map::<Seq<u8>, Locator>::empty(),
            dir.spec_active()@ == Seq::<u8>::empty(),
            dir.spec_active().idx() > floor,
        ensures
            final(index).wf(),
            match r {
                Ok(()) => spec_load(dir_old_segs(*dir), opt_bytes_view(*hint), floor)
                        == Some(final(index)@)
                    && index_resolves(final(index)@, *dir),
                Err(e) => spec_load(dir_old_segs(*dir), opt_bytes_view(*hint), floor) is None
                    && e == Error::Corrupt,
            },
    {
        let ghost ss: SegImages = dir_old_segs(*dir);
        match hint {
            None => {},
            Some(hb) => {
                let hb_copy: Vec<u8> = crate::record::copy_range(hb.as_slice(), 0, hb.len());
                proof {
                    assert(hb_copy@ =~= hb@);
                }
                let hseg = Segment::open_read_only(1, hb_copy);
                let hlist: Vec<RecordIndex> = match hseg.iter_with_value() {
                    Ok(v) => v,
                    Err(_) => {
                        return Err(Error::Corrupt);
                    },
                };
                let ghost hes: Seq<SegEntry> = spec_seg_records(hb@, 0).unwrap();
                let n: usize = hlist.len();
                let mut j: usize = 0;
                proof {
                    assert(hes.take(0) =~= Seq::<SegEntry>::empty());
                }
                while j < n
                    invariant
                        dir.wf(),
                        index.wf(),
                        dir.spec_active()@ == Seq::<u8>::empty(),
                        ss == dir_old_segs(*dir),
                        crate::segment::rec_indexes_match(hlist@, hes, 1, true),
                        opt_bytes_view(*hint) == Some(hb@),
                        spec_seg_records(hb@, 0) == Some(hes),
                        seg_entries_crc_ok(hes),
                        n == hlist@.len(),
                        hes.len() == n,
                        j <= n,
                        hint_fold(hes.take(j as int), ss) == Some(index@),
                        index_resolves(index@, *dir),
                    decreases n - j,
                {
                    let ghost e: SegEntry = hes[j as int];
                    let hri: &RecordIndex = &hlist[j];
                    let hval: &Bytes = match &hri.value {
                        Some(v) => v,
                        None => {
                            proof {
                                assert(false);
                            }
                            return Err(Error::Corrupt);
                        },
                    };
                    proof {
                        assert(hval@ == e.2);
                        assert(hri.key@ == e.1);
                        assert(hes.take(j + 1).drop_last() =~= hes.take(j as int));
                        assert(hes.take(j + 1).last() == e);
                    }
                    let (sidx, off) = match crate::hint::decode_hint_value(hval.as_slice()) {
                        Ok(p) => p,
                        Err(_) => {
                            proof {
                                assert(!hint_entry_ok(e, ss));
                                lemma_hint_fold_prefix_none(hes, ss, j + 1);
                            }
                            return Err(Error::Corrupt);
                        },
                    };
                    let ri2 = RecordIndex {
                        key: hri.key.clone(),
                        segment: sidx,
                        flag: 0,
                        offset: off,
                        value: None,
                    };
                    proof {
                        lemma_dir_old_segs_lookup(*dir, sidx);
                    }
                    let rec = match dir.read_at(&ri2) {
                        Ok(rec) => rec,
                        Err(_) => {
                            proof {
                                assert(!hint_entry_ok(e, ss));
                                lemma_hint_fold_prefix_none(hes, ss, j + 1);
                            }
                            return Err(Error::Corrupt);
                        },
                    };
                    // the locator must name a live record carrying this key
                    let bad = rec.flag & FLAG_PADDING > 0
                        || rec.flag & FLAG_DELETED > 0
                        || !crate::index::bytes_eq(rec.key.as_slice(), hri.key.as_slice());
                    if bad {
                        proof {
                            assert(!hint_entry_ok(e, ss));
                            lemma_hint_fold_prefix_none(hes, ss, j + 1);
                        }
                        return Err(Error::Corrupt);
                    }
                    proof {
                        assert(hint_entry_ok(e, ss));
                    }
                    let res = index.set(ri2);
                    proof {
                        assert(res is Ok);
                        assert(hint_fold(hes.take(j + 1), ss) == Some(index@));
                    }
                    j = j + 1;
                }
                proof {
                    assert(hes.take(n as int) =~= hes);
                }
            },
        }
        // replay the segments above the floor, in ascending index order
        let ghost base: Map<Seq<u8>, Locator> = index@;
        let olds: &Vec<Segment> = dir.old_segments();
        let sn: usize = olds.len();
        let mut s: usize = 0;
        proof {
            assert(ss.take(0) =~= Seq::<(u64, Seq<u8>)>::empty());
        }
        while s < sn
            invariant
                dir.wf(),
                index.wf(),
                ss == dir_old_segs(*dir),
                olds@ == dir.spec_old(),
                sn == dir.spec_old().len(),
                ss.len() == sn,
                s <= sn,
                match opt_bytes_view(*hint) {
                    None => base == Map::<Seq<u8>, Locator>::empty(),
                    Some(hb) => spec_seg_records(hb, 0) is Some
                        && seg_entries_crc_ok(spec_seg_records(hb, 0).unwrap())
                        && hint_fold(spec_seg_records(hb, 0).unwrap(), ss) == Some(base),
                },
                segs_replay(base, ss.take(s as int), floor) == Some(index@),
                index_resolves(index@, *dir),
            decreases sn - s,
        {
            let seg: &Segment = &olds[s];
            let idx: u64 = seg.index();
            proof {
                assert(ss[s as int] == (seg.idx(), seg@));
                assert(ss.take(s + 1).drop_last() =~= ss.take(s as int));
                assert(ss.take(s + 1).last() == ss[s as int]);
            }
            if idx > floor {
                let items: Vec<RecordIndex> = match seg.iter() {
                    Ok(v) => v,
                    Err(_) => {
                        proof {
                            assert(segs_replay(base, ss.take(s + 1), floor) is None);
                            lemma_segs_replay_prefix_none(base, ss, floor, s + 1);
                        }
                        return Err(Error::Corrupt);
                    },
                };
                let ghost es: Seq<SegEntry> = spec_seg_records(seg@, 0).unwrap();
                let ghost m_pre: Map<Seq<u8>, Locator> = index@;
                proof {
                    crate::segment::lemma_seg_entry_parses(seg@, 0);
                    crate::directory::lemma_old_lookup(dir, s as int);
                    assert(es.take(0) =~= Seq::<SegEntry>::empty());
                }
                let m: usize = items.len();
                let mut t: usize = 0;
                while t < m
                    invariant
                        dir.wf(),
                        index.wf(),
                        ss == dir_old_segs(*dir),
                        crate::segment::rec_indexes_match(items@, es, idx, false),
                        m == items@.len(),
                        es.len() == m,
                        t <= m,
                        idx == dir.spec_old()[s as int].idx(),
                        s < dir.spec_old().len(),
                        dir.seg_contents(idx) == Some(dir.spec_old()[s as int]@),
                        spec_seg_records(dir.spec_old()[s as int]@, 0) == Some(es),
                        forall|i: int| 0 <= i < es.len() ==> {
                            let e = #[trigger] es[i];
                            &&& spec_parse_record(dir.spec_old()[s as int]@, e.0) is Some
                            &&& spec_parse_record(dir.spec_old()[s as int]@, e.0).unwrap().0 == e.1
                            &&& spec_parse_record(dir.spec_old()[s as int]@, e.0).unwrap().2 == e.3
                            &&& e.3 & FLAG_PADDING == 0
                            &&& 0 <= e.0 < dir.spec_old()[s as int]@.len()
                        },
                        forall|i: int| 0 <= i < es.len()
                            ==> (#[trigger] es[i]).1 == spec_parse_record(
                                dir.spec_old()[s as int]@, es[i].0).unwrap().0,
                        seg_replay(m_pre, idx, es.take(t as int)) == index@,
                        index_resolves(index@, *dir),
                    decreases m - t,
                {
                    let it: &RecordIndex = &items[t];
                    let ghost e: SegEntry = es[t as int];
                    proof {
                        assert(es.take(t + 1).drop_last() =~= es.take(t as int));
                        assert(es.take(t + 1).last() == e);
                        assert(it.key@ == e.1 && it.offset == e.0 && it.flag == e.3
                            && it.segment == idx);
                    }
                    if it.is_deleted() {
                        let res = index.delete(&it.key);
                        proof {
                            assert(res is Ok);
                        }
                    } else {
                        let c = it.clone();
                        let res = index.set(c);
                        proof {
                            assert(res is Ok);
                            // the fresh entry resolves: it is a record of this segment
                            let cdata = dir.spec_old()[s as int]@;
                            assert(spec_parse_record(cdata, e.0) is Some);
                            assert(cdata[e.0] & FLAG_PADDING == 0) by {
                                assert(spec_parse_record(cdata, e.0).unwrap().2 == e.3);
                                assert(spec_parse_record(cdata, e.0).unwrap().2 == cdata[e.0]);
                            };
                        }
                    }
                    proof {
                        assert(seg_replay(m_pre, idx, es.take(t + 1)) == index@);
                    }
                    t = t + 1;
                }
                proof {
                    assert(es.take(m as int) =~= es);
                    assert(segs_replay(base, ss.take(s + 1), floor) == Some(index@));
                }
            } else {
                proof {
                    assert(segs_replay(base, ss.take(s + 1), floor) == Some(index@));
                }
            }
            s = s + 1;
        }
        proof {
            assert(ss.take(sn as int) =~= ss);
        }
        Ok(())
    }

    /// Write a key-value pair: append a record with flag zero, then point
    /// the index at it.
    pub fn write(&mut self, key: &[u8], value: &[u8]) -> (r: Result<(), Error>)
        requires
            old(self).wf(),
        ensures
            r is Ok,
            final(self).wf(),
            final(self)@ == old(self)@.insert(key@, value@),
            final(self).spec_merged() == old(self).spec_merged(),
            final(self).spec_storage().spec_active().idx()
                >= old(self).spec_storage().spec_active().idx(),
            final(self).spec_storage().spec_active().idx()
                <= old(self).spec_storage().spec_active().idx() + 1,
            // physically: one record with flag zero, the key and the value,
            // appended to the segment that was active
            record_appended(*old(self), *final(self), key@, value@, 0),
    {
        self.apply_record(key, value, 0)
    }

    /// Delete a key: append a tombstone with an empty value, then drop the
    /// key from the index.
    pub fn delete(&mut self, key: &[u8]) -> (r: Result<(), Error>)
        requires
            old(self).wf(),
        ensures
            r is Ok,
            final(self).wf(),
            final(self)@ == old(self)@.remove(key@),
            final(self).spec_merged() == old(self).spec_merged(),
            final(self).spec_storage().spec_active().idx()
                >= old(self).spec_storage().spec_active().idx(),
            final(self).spec_storage().spec_active().idx()
                <= old(self).spec_storage().spec_active().idx() + 1,
            // physically: a tombstone — the deleted flag, the key, an empty
            // value — appended to the segment that was active
            record_appended(*old(self), *final(self), key@, Seq::<u8>::empty(), FLAG_DELETED),
    {
        let empty: Vec<u8> = Vec::new();
        let r = self.apply_record(key, empty.as_slice(), FLAG_DELETED);
        proof {
            assert(empty@ =~= Seq::<u8>::empty());
        }
        r
    }

    /// Fold a merge's staged output into the data directory image, as the
    /// next open does on disk: with no staging directory nothing happens;
    /// one without a merge-finish marker is discarded; a finished one has
    /// its segments replace every data segment at or below the compacted
    /// floor, and its hint and marker copied over.
    fn apply_handoff(root: RootImage) -> (r: Result<DirImage, Error>)
        ensures
            match r {
                Ok(d) => spec_handoff(root@) == Some(d@),
                Err(e) => spec_handoff(root@) is None
                    && (e == Error::Corrupt || e == Error::Invariant),
            },
    {
        let ghost rootv: (DirImageV, Option<DirImageV>) = root@;
        let RootImage { data, merged } = root;
        let m: DirImage = match merged {
            None => {
                return Ok(data);
            },
            Some(m) => m,
        };
        let ghost mv: DirImageV = m@;
        proof {
            assert(rootv.1 == Some(mv));
        }
        let DirImage { segs: msegs, hint: mhint, finish: mfinish } = m;
        let fb: Vec<u8> = match mfinish {
            None => {
                return Ok(data);
            },
            Some(fb) => fb,
        };
        proof {
            assert(mv.0 == segs_view(msegs@));
            assert(mv.1 == opt_bytes_view(mhint));
            assert(mv.2 == Some(fb@));
        }
        let maxm: u64 = match crate::hint::parse_decimal(fb.as_slice()) {
            Ok(v) => v,
            Err(_) => {
                return Err(Error::Corrupt);
            },
        };
        // compacted output may not collide with the segments that survive
        let mn: usize = msegs.len();
        let mut i: usize = 0;
        while i < mn
            invariant
                i <= mn,
                mn == msegs@.len(),
                mv.0 == segs_view(msegs@),
                mv.0.len() == mn,
                rootv == root@,
                rootv.1 == Some(mv),
                mv.2 == Some(fb@),
                spec_parse_decimal(fb@) == Some(maxm),
                forall|a: int| 0 <= a < i ==> (#[trigger] msegs@[a]).0 <= maxm,
            decreases mn - i,
        {
            if msegs[i].0 > maxm {
                proof {
                    assert((#[trigger] mv.0[i as int]).0 > maxm);
                    assert(spec_handoff(rootv) is None);
                }
                return Err(Error::Invariant);
            }
            i = i + 1;
        }
        proof {
            assert forall|a: int| 0 <= a < mv.0.len()
                implies !((#[trigger] mv.0[a]).0 > maxm) by {
                assert(mv.0[a].0 == msegs@[a].0);
            }
        }
        let ghost msegs0: SegImages = segs_view(msegs@);
        let mut out: Vec<(u64, Vec<u8>)> = msegs;
        let DirImage { segs: dsegs, hint: dhint, finish: _dfinish } = data;
        let ghost dsegs0: SegImages = segs_view(dsegs@);
        let dn: usize = dsegs.len();
        let mut dsegs = dsegs;
        let mut j: usize = 0;
        proof {
            assert(segs_view(out@) =~= msegs0 + segs_above(dsegs0.take(0), maxm));
        }
        while j < dn
            invariant
                j <= dn,
                dn == dsegs0.len(),
                segs_view(dsegs@) =~= dsegs0.skip(j as int),
                dsegs@.len() == dn - j,
                segs_view(out@) == msegs0 + segs_above(dsegs0.take(j as int), maxm),
            decreases dn - j,
        {
            let ghost out_before: Seq<(u64, Vec<u8>)> = out@;
            let ghost dsegs_before: Seq<(u64, Vec<u8>)> = dsegs@;
            let (idx, c) = dsegs.remove(0);
            proof {
                assert(segs_view(dsegs_before)[0] == dsegs0.skip(j as int)[0]);
                assert(dsegs0.skip(j as int)[0] == dsegs0[j as int]);
                assert((idx, c@) == dsegs0[j as int]);
                assert(segs_view(dsegs@) =~= segs_view(dsegs_before).remove(0));
                assert(segs_view(dsegs_before).remove(0) =~= dsegs0.skip(j + 1));
                assert(dsegs0.take(j + 1).drop_last() =~= dsegs0.take(j as int));
                assert(dsegs0.take(j + 1).last() == dsegs0[j as int]);
            }
            if idx > maxm {
                out.push((idx, c));
                proof {
                    assert(segs_view(out@) =~= segs_view(out_before).push((idx, c@)));
                    assert(segs_above(dsegs0.take(j + 1), maxm)
                        =~= segs_above(dsegs0.take(j as int), maxm).push(dsegs0[j as int]));
                    assert(segs_view(out@) =~= msegs0
                        + segs_above(dsegs0.take(j + 1), maxm));
                }
            } else {
                proof {
                    assert(segs_above(dsegs0.take(j + 1), maxm)
                        =~= segs_above(dsegs0.take(j as int), maxm));
                    assert(segs_view(out@) =~= msegs0
                        + segs_above(dsegs0.take(j + 1), maxm));
                }
            }
            j = j + 1;
        }
        proof {
            assert(dsegs0.take(dn as int) =~= dsegs0);
        }
        let hint: Option<Vec<u8>> = match mhint {
            Some(h) => Some(h),
            None => dhint,
        };
        Ok(DirImage { segs: out, hint, finish: Some(fb) })
    }

    /// Open a store over the root image read from disk: run the merge
    /// handoff, open the segment directory, and rebuild the index.
    pub fn open(root: RootImage, options: Options) -> (r: Result<Database, Error>)
        ensures
            match r {
                Ok(db) => {
                    &&& db.wf()
                    &&& db.spec_merged() is None
                    &&& spec_open_view(root@) == Some(db@)
                    &&& db.spec_storage().spec_use_mmap() == options.spec_mmap()
                    &&& db.spec_storage().spec_active().idx()
                        == spec_active_index_of(spec_handoff(root@).unwrap())
                },
                Err(_) => spec_open_view(root@) is None,
            },
    {
        let data: DirImage = Self::apply_handoff(root)?;
        let DirImage { segs, hint, finish } = data;
        let ghost dv: DirImageV = (segs_view(segs@), opt_bytes_view(hint), opt_bytes_view(finish));
        let floor: u64 = if hint.is_some() {
            match &finish {
                None => {
                    return Err(Error::Io);
                },
                Some(fb) => match crate::hint::parse_decimal(fb.as_slice()) {
                    Ok(v) => v,
                    Err(_) => {
                        return Err(Error::Corrupt);
                    },
                },
            }
        } else {
            0
        };
        let ghost segsv: Seq<(u64, Vec<u8>)> = segs@;
        proof {
            assert(spec_open_floor(dv) == floor);
        }
        let dir: Directory = match Directory::open(segs, options.mmap, floor) {
            Ok(d) => d,
            Err(e) => {
                proof {
                    assert(!spec_open_ok_of(dv)) by {
                        if spec_open_ok_of(dv) {
                            assert forall|a: int, b: int| 0 <= a < b < segsv.len()
                                implies (#[trigger] segsv[a]).0 < (#[trigger] segsv[b]).0 by {
                                assert(dv.0[a].0 < dv.0[b].0);
                                assert(dv.0[a].0 == segsv[a].0 && dv.0[b].0 == segsv[b].0);
                            }
                            assert(crate::directory::strictly_increasing(segsv));
                            if segsv.len() > 0 {
                                assert(dv.0.last().0 == segsv.last().0);
                            }
                            assert(false);
                        }
                    };
                }
                return Err(e);
            },
        };
        proof {
            assert(dir_old_segs(dir) =~= dv.0);
        }
        let mut index = Index::new();
        match Self::load_index(&mut index, &dir, &hint, floor) {
            Ok(()) => {},
            Err(e) => {
                proof {
                    assert(spec_open_view_of(dv) is None);
                }
                return Err(e);
            },
        };
        let db = Database {
            index,
            storage: dir,
            data_hint: hint,
            data_finish: finish,
            merged: None,
        };
        proof {
            let ss = dv.0;
            let aidx = db.storage.spec_active().idx();
            let ss2 = db.spec_data_segs();
            assert(ss2 =~= ss.push((aidx, Seq::<u8>::empty())));
            // the fresh, empty active segment changes neither base nor replay
            assert(segs_distinct(ss)) by {
                assert forall|a: int, b: int| 0 <= a < b < ss.len()
                    implies (#[trigger] ss[a]).0 != (#[trigger] ss[b]).0 by {
                    assert(db.storage.spec_old()[a].idx() < db.storage.spec_old()[b].idx());
                }
            };
            assert forall|idx: u64| (#[trigger] seg_lookup(ss, idx)) is Some
                implies seg_lookup(ss2, idx) is Some
                    && seg_lookup(ss2, idx).unwrap().len() >= seg_lookup(ss, idx).unwrap().len()
                    && seg_lookup(ss2, idx).unwrap().subrange(0, seg_lookup(ss, idx).unwrap().len() as int)
                        == seg_lookup(ss, idx).unwrap() by {
                let w = choose|w: int| 0 <= w < ss.len() && (#[trigger] ss[w]).0 == idx;
                lemma_seg_lookup_at(ss, w);
                lemma_dir_segs_distinct(db.storage);
                assert(ss2[w] == ss[w]);
                lemma_seg_lookup_at(ss2, w);
                assert(seg_lookup(ss2, idx).unwrap().subrange(0, seg_lookup(ss, idx).unwrap().len() as int)
                    =~= seg_lookup(ss, idx).unwrap());
            }
            if opt_bytes_view(db.data_hint) is Some {
                let hb = opt_bytes_view(db.data_hint).unwrap();
                let hes = spec_seg_records(hb, 0).unwrap();
                lemma_hint_fold_extend(hes, ss, ss2);
            }
            // replaying the empty active segment is a no-op
            let base = match opt_bytes_view(db.data_hint) {
                None => Map::<Seq<u8>, Locator>::empty(),
                Some(hb) => hint_fold(spec_seg_records(hb, 0).unwrap(), ss).unwrap(),
            };
            assert(ss2.drop_last() =~= ss);
            assert(spec_seg_records(Seq::<u8>::empty(), 0) == Some(Seq::<SegEntry>::empty()));
            assert(segs_replay(base, ss2, floor) == Some(db.index@));
            assert(spec_rebuild(ss2, db.spec_hint(), db.spec_finish()) == Some(db.index@));
            assert(db.wf());
            // the view over the persisted image equals the view over the
            // directory: locators never name the empty active segment
            assert forall|k: Seq<u8>| db.index@.contains_key(k)
                implies #[trigger] materialize(db.index@, ss)[k] == materialize(db.index@, ss2)[k] by {
                let l = db.index@[k];
                lemma_dir_segs_lookup(db.storage, l.0);
                lemma_dir_old_segs_lookup(db.storage, l.0);
                assert(l.0 != aidx) by {
                    if l.0 == aidx {
                        assert(l.1 < db.storage.seg_contents(l.0).unwrap().len());
                    }
                };
            }
            assert(materialize(db.index@, ss) =~= materialize(db.index@, ss2));
            assert(spec_open_view_of(dv) == Some(db@));
            // the active index matches the image-level account of it
            assert(db.storage.spec_active().idx() == spec_active_index_of(dv)) by {
                assert(dv.0.len() == segsv.len());
                if segsv.len() > 0 {
                    assert(dv.0.last() == (segsv.last().0, segsv.last().1@));
                }
            };
        }
        Ok(db)
    }

    /// Read a key's current value: an index hit resolves through the
    /// segment the locator names; a miss is `None`.  Under the store's
    /// invariant a read never fails.
    pub fn read(&self, key: &[u8]) -> (r: Result<Option<Bytes>, Error>)
        requires
            self.wf(),
        ensures
            r is Ok,
            self@.contains_key(key@) ==> r.unwrap() is Some
                && r.unwrap().unwrap()@ == self@[key@],
            !self@.contains_key(key@) ==> r.unwrap() is None,
    {
        let ri = match self.index.get(key) {
            None => {
                return Ok(None);
            },
            Some(ri) => ri,
        };
        let rec = match self.storage.read_at(&ri) {
            Ok(rec) => rec,
            Err(_) => {
                proof {
                    assert(false);
                }
                return Err(Error::Invariant);
            },
        };
        proof {
            lemma_dir_segs_lookup(self.storage, ri.segment);
        }
        Ok(Some(rec.value))
    }
}

/// What a rotation alone does to a store: contents of every segment are
/// kept, the retired active segment answers to its old index, a fresh empty
/// segment takes the next index, and neither the rebuilt mapping nor the
/// materialized view moves.
proof fn lemma_rotate_effect(pre: Database, post_storage: Directory)
    requires
        pre.wf(),
        post_storage.wf(),
        post_storage.spec_old().len() == pre.spec_storage().spec_old().len() + 1,
        post_storage.spec_old().drop_last() == pre.spec_storage().spec_old(),
        post_storage.spec_old().last().idx() == pre.spec_storage().spec_active().idx(),
        post_storage.spec_old().last()@ == pre.spec_storage().spec_active()@,
        post_storage.spec_active().idx() == pre.spec_storage().spec_active().idx() + 1,
        post_storage.spec_active()@ == Seq::<u8>::empty(),
    ensures
        forall|idx: u64| idx != post_storage.spec_active().idx()
            ==> post_storage.seg_contents(idx) == pre.spec_storage().seg_contents(idx),
        dir_old_segs(post_storage) == dir_segs(pre.spec_storage()),
        dir_segs(post_storage) == dir_segs(pre.spec_storage())
            .push((post_storage.spec_active().idx(), Seq::<u8>::empty())),
        spec_rebuild(dir_segs(post_storage), pre.spec_hint(), pre.spec_finish())
            == Some(pre.spec_index()),
        index_resolves(pre.spec_index(), post_storage),
        materialize(pre.spec_index(), dir_segs(post_storage))
            == materialize(pre.spec_index(), dir_segs(pre.spec_storage())),
{
    let d0 = pre.spec_storage();
    let aidx = d0.spec_active().idx();
    let fresh = post_storage.spec_active().idx();
    let ss = dir_segs(d0);
    assert(dir_old_segs(post_storage) =~= ss) by {
        let lhs = dir_old_segs(post_storage);
        assert forall|i: int| 0 <= i < lhs.len() implies lhs[i] == ss[i] by {
            if i < post_storage.spec_old().len() - 1 {
                assert(post_storage.spec_old()[i] == post_storage.spec_old().drop_last()[i]);
            }
        }
    };
    let ss2 = dir_segs(post_storage);
    assert(ss2 =~= ss.push((fresh, Seq::<u8>::empty())));
    lemma_dir_segs_distinct(d0);
    lemma_dir_segs_distinct(post_storage);
    // contents preserved
    assert forall|idx: u64| idx != fresh
        implies post_storage.seg_contents(idx) == d0.seg_contents(idx) by {
        lemma_dir_segs_lookup(d0, idx);
        lemma_dir_old_segs_lookup(post_storage, idx);
        assert(post_storage.seg_contents(idx) == seg_lookup(dir_old_segs(post_storage), idx));
    }
    // lookups preserved with room for extension
    assert forall|idx: u64| (#[trigger] seg_lookup(ss, idx)) is Some
        implies seg_lookup(ss2, idx) is Some
            && seg_lookup(ss2, idx).unwrap().len() >= seg_lookup(ss, idx).unwrap().len()
            && seg_lookup(ss2, idx).unwrap().subrange(0, seg_lookup(ss, idx).unwrap().len() as int)
                == seg_lookup(ss, idx).unwrap() by {
        let w = choose|w: int| 0 <= w < ss.len() && (#[trigger] ss[w]).0 == idx;
        lemma_seg_lookup_at(ss, w);
        assert(ss2[w] == ss[w]);
        lemma_seg_lookup_at(ss2, w);
        assert(seg_lookup(ss2, idx).unwrap().subrange(0, seg_lookup(ss, idx).unwrap().len() as int)
            =~= seg_lookup(ss, idx).unwrap());
    }
    // rebuild unchanged: fresh empty segment is a no-op
    let floor: u64 = if pre.spec_hint() is Some {
        spec_parse_decimal(pre.spec_finish().unwrap()).unwrap()
    } else {
        0
    };
    let base = match pre.spec_hint() {
        None => Map::<Seq<u8>, Locator>::empty(),
        Some(hb) => {
            let hes = spec_seg_records(hb, 0).unwrap();
            lemma_hint_fold_extend(hes, ss, ss2);
            hint_fold(hes, ss).unwrap()
        },
    };
    assert(ss2.drop_last() =~= ss);
    assert(spec_seg_records(Seq::<u8>::empty(), 0) == Some(Seq::<SegEntry>::empty()));
    assert(fresh > floor) by {
        if pre.spec_hint() is Some {
            assert(aidx > floor);
        }
    };
    assert(segs_replay(base, ss2, floor) == segs_replay(base, ss, floor));
    // locators still resolve, and to the same values
    assert forall|k: Seq<u8>| #[trigger] pre.spec_index().contains_key(k) implies {
        let l = pre.spec_index()[k];
        &&& post_storage.seg_contents(l.0) is Some
        &&& l.1 < post_storage.seg_contents(l.0).unwrap().len()
        &&& post_storage.seg_contents(l.0).unwrap()[l.1 as int] & FLAG_PADDING == 0
        &&& spec_parse_record(post_storage.seg_contents(l.0).unwrap(), l.1 as int) is Some
        &&& spec_parse_record(post_storage.seg_contents(l.0).unwrap(), l.1 as int).unwrap().0 == k
        &&& spec_parse_record(post_storage.seg_contents(l.0).unwrap(), l.1 as int).unwrap().2 & FLAG_DELETED == 0
    } by {
        let l = pre.spec_index()[k];
        assert(l.0 != fresh) by {
            lemma_dir_segs_lookup(d0, l.0);
            if l.0 == fresh {
                assert(seg_lookup(ss, fresh) is Some);
                let w = choose|w: int| 0 <= w < ss.len() && (#[trigger] ss[w]).0 == fresh;
                if w < ss.len() - 1 {
                    assert(d0.spec_old()[w].idx() < aidx);
                }
            }
        };
    }
    assert forall|k: Seq<u8>| pre.spec_index().contains_key(k)
        implies #[trigger] materialize(pre.spec_index(), ss2)[k]
            == materialize(pre.spec_index(), ss)[k] by {
        let l = pre.spec_index()[k];
        lemma_dir_segs_lookup(d0, l.0);
        lemma_dir_old_segs_lookup(post_storage, l.0);
        assert(l.0 != fresh) by {
            if l.0 == fresh {
                assert(seg_lookup(ss, fresh) is Some);
                let w = choose|w: int| 0 <= w < ss.len() && (#[trigger] ss[w]).0 == fresh;
                if w < ss.len() - 1 {
                    assert(d0.spec_old()[w].idx() < aidx);
                }
            }
        };
        assert(seg_lookup(ss2, l.0) == seg_lookup(dir_old_segs(post_storage), l.0)
            || seg_lookup(ss2, l.0) == seg_lookup(ss, l.0));
        lemma_dir_segs_lookup(post_storage, l.0);
    }
    assert(materialize(pre.spec_index(), ss2) =~= materialize(pre.spec_index(), ss));
}

impl Database {
    /// Compact the store: rotate the active segment so the whole workload
    /// is immutable, gather the latest record of every key across those
    /// segments, and stage fresh segments holding only the live records,
    /// with a hint file and a merge-finish marker.  The staging directory
    /// is folded into the data directory by the next open; the live mapping
    /// does not move.
    #[verifier::rlimit(100)]
    pub fn merge(&mut self) -> (r: Result<(), Error>)
        requires
            old(self).wf(),
        ensures
            final(self).wf(),
            final(self)@ == old(self)@,
            final(self).spec_hint() == old(self).spec_hint(),
            final(self).spec_finish() == old(self).spec_finish(),
            // merge succeeds exactly when a fresh index is left for the
            // rotation and every segment to compact parses with sound
            // checksums
            r is Ok <==> old(self).spec_storage().spec_active().idx() < u64::MAX
                && merge_fold(Map::empty(), dir_segs(old(self).spec_storage())) is Some,
            final(self).spec_storage().spec_active().idx()
                >= old(self).spec_storage().spec_active().idx(),
            final(self).spec_storage().spec_active().idx()
                <= old(self).spec_storage().spec_active().idx() + 1,
            match r {
                Ok(()) => {
                    &&& final(self).spec_merged() is Some
                    &&& staged_ok(final(self).spec_merged().unwrap(),
                        dir_segs(old(self).spec_storage()),
                        old(self).spec_storage().spec_active().idx())
                    // data segments are untouched but for the rotation
                    &&& dir_old_segs(final(self).spec_storage())
                        == dir_segs(old(self).spec_storage())
                    &&& final(self).spec_storage().spec_active().idx()
                        == old(self).spec_storage().spec_active().idx() + 1
                    &&& final(self).spec_storage().spec_active()@ == Seq::<u8>::empty()
                },
                Err(e) => {
                    &&& final(self).spec_merged() == old(self).spec_merged()
                    &&& (e == Error::Invariant
                        ==> old(self).spec_storage().spec_active().idx() == u64::MAX)
                    &&& (e == Error::Corrupt
                        ==> merge_fold(Map::empty(), dir_segs(old(self).spec_storage())) is None)
                    &&& (e == Error::Invariant || e == Error::Corrupt)
                },
            },
    {
        let ghost pre: Database = *old(self);
        let maxidx: u64 = self.storage.active_index();
        match self.storage.prepare_merge() {
            Ok(_) => {},
            Err(e) => {
                return Err(Error::Invariant);
            },
        }
        let ghost src: SegImages = dir_segs(pre.spec_storage());
        proof {
            lemma_rotate_effect(pre, self.storage);
            assert(self.wf());
            assert(self@ =~= pre@);
        }
        // gather the latest record of every key, tombstones included
        let mut records = Index::new();
        let olds: &Vec<Segment> = self.storage.old_segments();
        let sn: usize = olds.len();
        let mut s: usize = 0;
        proof {
            assert(src.take(0) =~= Seq::<(u64, Seq<u8>)>::empty());
        }
        while s < sn
            invariant
                self.wf(),
                pre == *old(self),
                self@ == pre@,
                self.spec_hint() == pre.spec_hint(),
                self.spec_finish() == pre.spec_finish(),
                self.spec_merged() == pre.spec_merged(),
                records.wf(),
                maxidx == pre.spec_storage().spec_active().idx(),
                src == dir_segs(pre.spec_storage()),
                self.spec_storage().spec_active().idx() == maxidx + 1,
                self.spec_storage().spec_active()@ == Seq::<u8>::empty(),
                olds@ == self.spec_storage().spec_old(),
                sn == olds@.len(),
                src == dir_old_segs(self.spec_storage()),
                src.len() == sn,
                s <= sn,
                merge_fold(Map::empty(), src.take(s as int)) == Some(records@),
                merge_resolves(records@, self.spec_storage()),
                forall|k: Seq<u8>| #[trigger] records@.contains_key(k)
                    ==> records@[k].0 <= maxidx,
                forall|i: int| 0 <= i < src.len() ==> (#[trigger] src[i]).0 <= maxidx,
            decreases sn - s,
        {
            let seg: &Segment = &olds[s];
            let idx: u64 = seg.index();
            proof {
                assert(src[s as int] == (seg.idx(), seg@));
                assert(src.take(s + 1).drop_last() =~= src.take(s as int));
                assert(src.take(s + 1).last() == src[s as int]);
            }
            let items: Vec<RecordIndex> = match seg.iter() {
                Ok(v) => v,
                Err(_) => {
                    proof {
                        assert(merge_fold(Map::empty(), src.take(s + 1)) is None);
                        lemma_merge_fold_prefix_none(Map::empty(), src, s + 1);
                    }
                    return Err(Error::Corrupt);
                },
            };
            let ghost es: Seq<SegEntry> = spec_seg_records(seg@, 0).unwrap();
            let ghost m_pre: Map<Seq<u8>, Locator> = records@;
            proof {
                crate::segment::lemma_seg_entry_parses(seg@, 0);
                crate::directory::lemma_old_lookup(&self.storage, s as int);
                assert(es.take(0) =~= Seq::<SegEntry>::empty());
            }
            let m: usize = items.len();
            let mut t: usize = 0;
            while t < m
                invariant
                    records.wf(),
                    crate::segment::rec_indexes_match(items@, es, idx, false),
                    m == items@.len(),
                    es.len() == m,
                    t <= m,
                    idx <= maxidx,
                    self.spec_storage().seg_contents(idx)
                        == Some(self.spec_storage().spec_old()[s as int]@),
                    s < self.spec_storage().spec_old().len(),
                    spec_seg_records(self.spec_storage().spec_old()[s as int]@, 0) == Some(es),
                    forall|i: int| 0 <= i < es.len() ==> {
                        let e = #[trigger] es[i];
                        &&& spec_parse_record(self.spec_storage().spec_old()[s as int]@, e.0) is Some
                        &&& spec_parse_record(self.spec_storage().spec_old()[s as int]@, e.0).unwrap().0 == e.1
                        &&& spec_parse_record(self.spec_storage().spec_old()[s as int]@, e.0).unwrap().2 == e.3
                        &&& e.3 & FLAG_PADDING == 0
                        &&& 0 <= e.0 < self.spec_storage().spec_old()[s as int]@.len()
                    },
                    merge_seg_fold(m_pre, idx, es.take(t as int)) == records@,
                    merge_resolves(records@, self.spec_storage()),
                    forall|k: Seq<u8>| #[trigger] records@.contains_key(k)
                        ==> records@[k].0 <= maxidx,
                decreases m - t,
            {
                let it: &RecordIndex = &items[t];
                let ghost e: SegEntry = es[t as int];
                proof {
                    assert(es.take(t + 1).drop_last() =~= es.take(t as int));
                    assert(es.take(t + 1).last() == e);
                    assert(it.key@ == e.1 && it.offset == e.0 && it.flag == e.3
                        && it.segment == idx);
                }
                let c = it.clone();
                let res = records.set(c);
                proof {
                    assert(res is Ok);
                    let cdata = self.spec_storage().spec_old()[s as int]@;
                    assert(spec_parse_record(cdata, e.0).unwrap().2 == cdata[e.0]);
                }
                t = t + 1;
            }
            proof {
                assert(es.take(m as int) =~= es);
                assert(merge_fold(Map::empty(), src.take(s + 1)) == Some(records@));
            }
            s = s + 1;
        }
        proof {
            assert(src.take(sn as int) =~= src);
        }
        let ghost mm: Map<Seq<u8>, Locator> = records@;
        // stage the live records into fresh segments, hint in lockstep
        let mut staging: Segment = Segment::create(1);
        let mut hint_seg: Segment = Segment::create(1);
        let mut completed: Vec<(u64, Vec<u8>)> = Vec::new();
        let mut next_idx: u64 = 1;
        let ghost mut tagged: Seq<(u64, SegEntry)> = Seq::empty();
        let entries: &Vec<RecordIndex> = records.entries();
        let en: usize = entries.len();
        let mut j: usize = 0;
        proof {
            assert(spec_seg_records(staging@, 0) == Some(Seq::<SegEntry>::empty()));
            assert(spec_seg_records(hint_seg@, 0) == Some(Seq::<SegEntry>::empty()));
            assert(segs_view(completed@) =~= Seq::<(u64, Seq<u8>)>::empty());
            lemma_tagged_push_empty(segs_view(completed@), 1u64);
            assert(segs_entries_tagged(Seq::<(u64, Seq<u8>)>::empty())
                =~= Seq::<(u64, SegEntry)>::empty());
            assert(segs_entries_tagged(segs_view(completed@).push((1u64, staging@))) =~= tagged);
        }
        while j < en
            invariant
                self.wf(),
                pre == *old(self),
                self@ == pre@,
                self.spec_hint() == pre.spec_hint(),
                self.spec_finish() == pre.spec_finish(),
                self.spec_merged() == pre.spec_merged(),
                records.wf(),
                entries@ == records.spec_entries(),
                en == entries@.len(),
                j <= en,
                records@ == mm,
                merge_resolves(mm, self.spec_storage()),
                src == dir_old_segs(self.spec_storage()),
                maxidx == pre.spec_storage().spec_active().idx(),
                src == dir_segs(pre.spec_storage()),
                merge_fold(Map::empty(), src) == Some(mm),
                forall|k: Seq<u8>| #[trigger] mm.contains_key(k) ==> mm[k].0 <= maxidx,
                self.spec_storage().spec_active().idx() == maxidx + 1,
                self.spec_storage().spec_active()@ == Seq::<u8>::empty(),
                maxidx < self.spec_storage().spec_active().idx(),
                // staging shape
                staging.is_mut(),
                staging.wf(),
                staging.idx() == next_idx,
                hint_seg.is_mut(),
                hint_seg.wf(),
                next_idx == completed@.len() + 1,
                forall|i: int| 0 <= i < completed@.len()
                    ==> (#[trigger] completed@[i]).0 == i + 1,
                // every staged segment parses cleanly with sound checksums
                forall|i: int| 0 <= i < completed@.len()
                    ==> spec_seg_records((#[trigger] completed@[i]).1@, 0) is Some
                        && seg_entries_crc_ok(spec_seg_records(completed@[i].1@, 0).unwrap()),
                spec_seg_records(staging@, 0) is Some,
                seg_entries_crc_ok(spec_seg_records(staging@, 0).unwrap()),
                segs_entries_tagged(segs_view(completed@).push((next_idx, staging@))) == tagged,
                // the hint mirrors the staged records one for one
                spec_seg_records(hint_seg@, 0) is Some,
                seg_entries_crc_ok(spec_seg_records(hint_seg@, 0).unwrap()),
                spec_seg_records(hint_seg@, 0).unwrap().len() == tagged.len(),
                forall|b: int| 0 <= b < tagged.len() ==> {
                    let h = spec_seg_records(hint_seg@, 0).unwrap()[b];
                    &&& (#[trigger] tagged[b]).1.1 == h.1
                    &&& h.3 == 0
                    &&& h.2 == crate::hint::spec_encode_hint_value(tagged[b].0, tagged[b].1.0 as u64)
                },
                // staged records: distinct live keys with the latest values
                forall|a: int, b: int| 0 <= a < b < tagged.len()
                    ==> (#[trigger] tagged[a]).1.1 != (#[trigger] tagged[b]).1.1,
                forall|b: int| 0 <= b < tagged.len() ==> {
                    let k = (#[trigger] tagged[b]).1.1;
                    &&& tagged[b].1.3 & FLAG_DELETED == 0
                    &&& mm.contains_key(k)
                    &&& mm[k].2 & FLAG_DELETED == 0
                    &&& tagged[b].1.2 == loc_value(src, mm[k])
                },
                forall|b: int| 0 <= b < tagged.len()
                    ==> exists|a: int| 0 <= a < j
                        && (#[trigger] tagged[b]).1.1 == records.spec_entries()[a].key@,
                forall|a: int| 0 <= a < j
                        && (#[trigger] records.spec_entries()[a]).flag & FLAG_DELETED == 0
                    ==> exists|b: int| 0 <= b < tagged.len()
                        && (#[trigger] tagged[b]).1.1 == records.spec_entries()[a].key@,
            decreases en - j,
        {
            let it: &RecordIndex = &entries[j];
            proof {
                records.lemma_keys_unique();
                records.lemma_entry_lookup(j as int);
            }
            if it.is_deleted() {
                proof {
                    assert forall|a: int| 0 <= a < j + 1
                            && (#[trigger] records.spec_entries()[a]).flag & FLAG_DELETED == 0
                        implies exists|b: int| 0 <= b < tagged.len()
                            && (#[trigger] tagged[b]).1.1 == records.spec_entries()[a].key@ by {
                        assert(a < j);
                    }
                }
            } else {
                let ghost l: Locator = mm[it.key@];
                proof {
                    assert(l == (it.segment, it.offset, it.flag));
                }
                let rec = match self.storage.read_at(it) {
                    Ok(rec) => rec,
                    Err(_) => {
                        proof {
                            assert(false);
                        }
                        return Err(Error::Invariant);
                    },
                };
                let rklen: usize = rec.key.len();
                let rvlen: usize = rec.value.len();
                proof {
                    let c = self.spec_storage().seg_contents(l.0).unwrap();
                    assert(spec_parse_record(c, l.1 as int).unwrap().2 == c[l.1 as int]);
                    assert(rec.flag & FLAG_PADDING == 0);
                    assert(rec.flag == l.2);
                    lemma_dir_old_segs_lookup(self.spec_storage(), l.0);
                    assert(rec.value@ == loc_value(src, l));
                    assert(rec.key@.len() == rklen && rec.value@.len() == rvlen);
                    crate::segment::lemma_seg_append(staging@, rec.key@, rec.value@, rec.flag);
                }
                let ghost staging0: Seq<u8> = staging@;
                let ghost tagged0: Seq<(u64, SegEntry)> = tagged;
                let wr = match staging.write(rec.key.as_slice(), rec.value.as_slice(), rec.flag) {
                    Ok(w) => w,
                    Err(_) => {
                        proof {
                            assert(false);
                        }
                        return Err(Error::Invariant);
                    },
                };
                let ghost e_new: SegEntry = (staging0.len() as int
                    + crate::segment::spec_pad_len(staging0.len() as int,
                        spec_record_header_len(rec.key@, rec.value@)),
                    rec.key@, rec.value@, rec.flag, spec_crc_bytes(rec.key@, rec.value@));
                proof {
                    assert(wr.begin_offset == e_new.0);
                    assert(spec_seg_records(staging@, 0)
                        == Some(spec_seg_records(staging0, 0).unwrap().push(e_new))) by {
                        assert(spec_seg_records(staging0, 0).unwrap() + seq![e_new]
                            =~= spec_seg_records(staging0, 0).unwrap().push(e_new));
                    };
                    assert(seg_entries_crc_ok(spec_seg_records(staging@, 0).unwrap())) by {
                        let all = spec_seg_records(staging@, 0).unwrap();
                        assert forall|i: int| 0 <= i < all.len()
                            implies #[trigger] all[i].4 == spec_crc_bytes(all[i].1, all[i].2) by {
                            if i < all.len() - 1 {
                                assert(all[i] == spec_seg_records(staging0, 0).unwrap()[i]);
                            } else {
                                assert(all[i] == e_new);
                            }
                        }
                    };
                    tagged = tagged.push((next_idx, e_new));
                    // the tagged list tracks the staged segments
                    lemma_tagged_push_record(segs_view(completed@), next_idx,
                        staging0, staging@, e_new);
                    assert(segs_entries_tagged(segs_view(completed@).push((next_idx, staging@)))
                        == tagged);
                }
                // mirror the record in the hint file
                let mut hv: Vec<u8> = Vec::new();
                crate::hint::encode_hint_value(next_idx, wr.begin_offset, &mut hv);
                let ghost hint0: Seq<u8> = hint_seg@;
                let hvlen: usize = hv.len();
                proof {
                    assert(0u8 & FLAG_PADDING == 0) by (bit_vector);
                    assert(hv@.len() == hvlen);
                    crate::segment::lemma_seg_append(hint_seg@, rec.key@, hv@, 0);
                }
                let _hw = match hint_seg.write(rec.key.as_slice(), hv.as_slice(), 0) {
                    Ok(w) => w,
                    Err(_) => {
                        proof {
                            assert(false);
                        }
                        return Err(Error::Invariant);
                    },
                };
                proof {
                    let h_new: SegEntry = (hint0.len() as int
                        + crate::segment::spec_pad_len(hint0.len() as int,
                            spec_record_header_len(rec.key@, hv@)),
                        rec.key@, hv@, 0u8, spec_crc_bytes(rec.key@, hv@));
                    assert(spec_seg_records(hint_seg@, 0)
                        == Some(spec_seg_records(hint0, 0).unwrap().push(h_new))) by {
                        assert(spec_seg_records(hint0, 0).unwrap() + seq![h_new]
                            =~= spec_seg_records(hint0, 0).unwrap().push(h_new));
                    };
                    assert(seg_entries_crc_ok(spec_seg_records(hint_seg@, 0).unwrap())) by {
                        let all = spec_seg_records(hint_seg@, 0).unwrap();
                        assert forall|i: int| 0 <= i < all.len()
                            implies #[trigger] all[i].4 == spec_crc_bytes(all[i].1, all[i].2) by {
                            if i < all.len() - 1 {
                                assert(all[i] == spec_seg_records(hint0, 0).unwrap()[i]);
                            } else {
                                assert(all[i] == h_new);
                            }
                        }
                    };
                    assert(hv@ == crate::hint::spec_encode_hint_value(next_idx, e_new.0 as u64));
                    assert forall|b: int| 0 <= b < tagged.len() implies {
                        let h = spec_seg_records(hint_seg@, 0).unwrap()[b];
                        &&& (#[trigger] tagged[b]).1.1 == h.1
                        &&& h.3 == 0
                        &&& h.2 == crate::hint::spec_encode_hint_value(tagged[b].0, tagged[b].1.0 as u64)
                    } by {
                        if b < tagged.len() - 1 {
                            assert(tagged[b] == tagged0[b]);
                            assert(spec_seg_records(hint_seg@, 0).unwrap()[b]
                                == spec_seg_records(hint0, 0).unwrap()[b]);
                        }
                    }
                    // distinctness and correspondence
                    assert forall|a: int, b: int| 0 <= a < b < tagged.len()
                        implies (#[trigger] tagged[a]).1.1 != (#[trigger] tagged[b]).1.1 by {
                        if b < tagged.len() - 1 {
                            assert(tagged[a] == tagged0[a] && tagged[b] == tagged0[b]);
                        } else {
                            assert(tagged[b].1.1 == records.spec_entries()[j as int].key@);
                            let wa = choose|wa: int| 0 <= wa < j
                                && (#[trigger] tagged0[a]).1.1 == records.spec_entries()[wa].key@;
                            assert(records.spec_entries()[wa].key@
                                != records.spec_entries()[j as int].key@);
                            assert(tagged[a] == tagged0[a]);
                        }
                    }
                    assert forall|b: int| 0 <= b < tagged.len() implies {
                        let k = (#[trigger] tagged[b]).1.1;
                        &&& tagged[b].1.3 & FLAG_DELETED == 0
                        &&& mm.contains_key(k)
                        &&& mm[k].2 & FLAG_DELETED == 0
                        &&& tagged[b].1.2 == loc_value(src, mm[k])
                    } by {
                        if b < tagged.len() - 1 {
                            assert(tagged[b] == tagged0[b]);
                        } else {
                            assert(tagged[b].1 == e_new);
                        }
                    }
                    assert forall|b: int| 0 <= b < tagged.len()
                        implies exists|a: int| 0 <= a < j + 1
                            && (#[trigger] tagged[b]).1.1 == records.spec_entries()[a].key@ by {
                        if b < tagged.len() - 1 {
                            assert(tagged[b] == tagged0[b]);
                            let wa = choose|wa: int| 0 <= wa < j
                                && (#[trigger] tagged0[b]).1.1 == records.spec_entries()[wa].key@;
                            assert(0 <= wa < j + 1
                                && tagged[b].1.1 == records.spec_entries()[wa].key@);
                        } else {
                            assert(0 <= j < j + 1
                                && tagged[b].1.1 == records.spec_entries()[j as int].key@);
                        }
                    }
                    assert forall|a: int| 0 <= a < j + 1
                            && (#[trigger] records.spec_entries()[a]).flag & FLAG_DELETED == 0
                        implies exists|b: int| 0 <= b < tagged.len()
                            && (#[trigger] tagged[b]).1.1 == records.spec_entries()[a].key@ by {
                        if a < j {
                            let wb = choose|wb: int| 0 <= wb < tagged0.len()
                                && (#[trigger] tagged0[wb]).1.1 == records.spec_entries()[a].key@;
                            assert(tagged[wb] == tagged0[wb]);
                            assert(0 <= wb < tagged.len()
                                && tagged[wb].1.1 == records.spec_entries()[a].key@);
                        } else {
                            assert(tagged[tagged.len() - 1].1.1
                                == records.spec_entries()[a].key@);
                        }
                    }
                }
                // rotate the staging segment when it fills; at the very top
                // of the index range the segment simply keeps growing
                if wr.is_segment_full && next_idx < u64::MAX {
                    let ghost staged_full: Seq<u8> = staging@;
                    let ghost completed_before: Seq<(u64, Vec<u8>)> = completed@;
                    let ghost idx_before: u64 = next_idx;
                    proof {
                        assert(segs_entries_tagged(segs_view(completed_before)
                            .push((idx_before, staged_full))) == tagged);
                    }
                    let mut retired = Segment::create(next_idx + 1);
                    core::mem::swap(&mut staging, &mut retired);
                    completed.push((next_idx, retired.into_contents()));
                    next_idx = next_idx + 1;
                    proof {
                        assert(segs_view(completed@)
                            =~= segs_view(completed_before).push((idx_before, staged_full)));
                        assert(segs_entries_tagged(segs_view(completed@)) == tagged);
                        assert(staging@ == Seq::<u8>::empty());
                        assert(spec_seg_records(staging@, 0) == Some(Seq::<SegEntry>::empty()));
                        lemma_tagged_push_empty(segs_view(completed@), next_idx);
                        assert(segs_entries_tagged(segs_view(completed@).push((next_idx, staging@)))
                            == tagged);
                        assert forall|i: int| 0 <= i < completed@.len()
                            implies spec_seg_records((#[trigger] completed@[i]).1@, 0) is Some
                                && seg_entries_crc_ok(spec_seg_records(completed@[i].1@, 0).unwrap()) by {
                            if i < completed@.len() - 1 {
                                assert(completed@[i] == completed@.drop_last()[i]);
                            }
                        }
                    }
                }
            }
            j = j + 1;
        }
        // seal the staging directory: segments, hint, merge-finish marker
        let ghost staging_last: Seq<u8> = staging@;
        let mut staged_segs = completed;
        let ghost staged_pre: Seq<(u64, Vec<u8>)> = staged_segs@;
        staged_segs.push((next_idx, staging.into_contents()));
        let hint_bytes: Vec<u8> = hint_seg.into_contents();
        let finish_bytes: Vec<u8> = crate::hint::format_decimal(maxidx);
        let staged = DirImage {
            segs: staged_segs,
            hint: Some(hint_bytes),
            finish: Some(finish_bytes),
        };
        proof {
            assert(segs_view(staged.segs@) =~= segs_view(staged_pre).push((next_idx, staging_last)));
            let sv = segs_view(staged.segs@);
            assert(image_increasing(sv)) by {
                assert forall|a: int, b: int| 0 <= a < b < sv.len()
                    implies (#[trigger] sv[a]).0 < (#[trigger] sv[b]).0 by {
                    if b < sv.len() - 1 {
                        assert(sv[a].0 == a + 1 && sv[b].0 == b + 1);
                    } else {
                        assert(sv[b].0 == next_idx);
                        assert(sv[a].0 == a + 1);
                    }
                }
            };
            assert forall|i: int| 0 <= i < sv.len()
                implies spec_seg_records((#[trigger] sv[i]).1, 0) is Some
                    && seg_entries_crc_ok(spec_seg_records(sv[i].1, 0).unwrap()) by {
                if i < sv.len() - 1 {
                    assert(sv[i] == (segs_view(staged_pre))[i]);
                    assert(staged_pre[i].1@ == sv[i].1);
                } else {
                    assert(sv[i].1 == staging_last);
                }
            }
            assert(segs_entries_tagged(sv) == tagged);
            // hint entries decode to the staged locators
            assert forall|b: int| 0 <= b < tagged.len() implies {
                let h = spec_seg_records(hint_bytes@, 0).unwrap()[b];
                &&& (#[trigger] tagged[b]).1.1 == h.1
                &&& h.3 == 0
                &&& spec_decode_hint_value(h.2) == Some((tagged[b].0, tagged[b].1.0 as u64))
            } by {
                crate::hint::lemma_hint_value_round_trip(tagged[b].0, tagged[b].1.0 as u64);
            }
            // every live key of the transient map is staged
            records.lemma_view_entries();
            assert forall|k: Seq<u8>| #[trigger] mm.contains_key(k)
                    && mm[k].2 & FLAG_DELETED == 0
                implies exists|b: int| 0 <= b < tagged.len()
                    && (#[trigger] tagged[b]).1.1 == k by {
                let a = choose|a: int| 0 <= a < records.spec_entries().len()
                    && (#[trigger] records.spec_entries()[a]).key@ == k;
                records.lemma_entry_lookup(a);
                assert(records.spec_entries()[a].flag & FLAG_DELETED == 0);
            }
        }
        self.merged = Some(staged);
        proof {
            let stagedv = self.spec_merged().unwrap();
            assert(stagedv.1 == Some(hint_bytes@));
            assert(segs_entries_tagged(stagedv.0) == tagged);
            assert forall|b: int| 0 <= b < segs_entries_tagged(stagedv.0).len() implies {
                let h = spec_seg_records(stagedv.1.unwrap(), 0).unwrap()[b];
                &&& (#[trigger] segs_entries_tagged(stagedv.0)[b]).1.1 == h.1
                &&& h.3 == 0
                &&& spec_decode_hint_value(h.2)
                    == Some((segs_entries_tagged(stagedv.0)[b].0,
                        segs_entries_tagged(stagedv.0)[b].1.0 as u64))
            } by {
                assert(segs_entries_tagged(stagedv.0)[b] == tagged[b]);
                assert(spec_seg_records(stagedv.1.unwrap(), 0).unwrap()[b]
                    == spec_seg_records(hint_bytes@, 0).unwrap()[b]);
            }
            lemma_staged_ok_intro(self.spec_merged().unwrap(), src, maxidx);
            assert(staged_ok(self.spec_merged().unwrap(), src, maxidx));
            assert(self.wf());
            assert(self@ =~= pre@);
        }
        Ok(())
    }

    /// The root image the current state would write to disk: every segment,
    /// the hint and merge-finish bytes, and any staged merge output.
    pub fn persist(&self) -> (r: RootImage)
        ensures
            r@ == (self.spec_data_image(), self.spec_merged()),
    {
        let mut segs: Vec<(u64, Vec<u8>)> = Vec::new();
        let olds: &Vec<Segment> = self.storage.old_segments();
        let n: usize = olds.len();
        let mut i: usize = 0;
        while i < n
            invariant
                i <= n,
                olds@ == self.storage.spec_old(),
                n == olds@.len(),
                segs_view(segs@) == dir_old_segs(self.storage).take(i as int),
            decreases n - i,
        {
            let seg: &Segment = &olds[i];
            segs.push((seg.index(), clone_bytes(seg.contents())));
            proof {
                assert(dir_old_segs(self.storage).take(i + 1).drop_last()
                    =~= dir_old_segs(self.storage).take(i as int));
                assert(segs_view(segs@) =~= dir_old_segs(self.storage).take(i + 1));
            }
            i = i + 1;
        }
        segs.push((self.storage.active_index(), clone_bytes(self.storage.active_contents())));
        proof {
            assert(dir_old_segs(self.storage).take(n as int) =~= dir_old_segs(self.storage));
            assert(segs_view(segs@) =~= self.spec_data_segs());
        }
        let hint = clone_opt_bytes(&self.data_hint);
        let finish = clone_opt_bytes(&self.data_finish);
        let merged: Option<DirImage> = match &self.merged {
            None => None,
            Some(d) => Some(clone_dir_image(d)),
        };
        let r = RootImage { data: DirImage { segs, hint, finish }, merged };
        proof {
            assert(r@ == (self.spec_data_image(), self.spec_merged()));
        }
        r
    }
}

/// Copy a byte vector.
pub fn clone_bytes(v: &Vec<u8>) -> (r: Vec<u8>)
    ensures
        r@ == v@,
{
    let r = crate::record::copy_range(v.as_slice(), 0, v.len());
    proof {
        assert(r@ =~= v@);
    }
    r
}

/// Copy an optional byte vector.
pub fn clone_opt_bytes(o: &Option<Vec<u8>>) -> (r: Option<Vec<u8>>)
    ensures
        opt_bytes_view(r) == opt_bytes_view(*o),
{
    match o {
        None => None,
        Some(v) => Some(clone_bytes(v)),
    }
}

/// Copy a directory image.
pub fn clone_dir_image(d: &DirImage) -> (r: DirImage)
    ensures
        r@ == d@,
{
    let mut segs: Vec<(u64, Vec<u8>)> = Vec::new();
    let n: usize = d.segs.len();
    let mut i: usize = 0;
    while i < n
        invariant
            i <= n,
            n == d.segs@.len(),
            segs_view(segs@) == segs_view(d.segs@).take(i as int),
        decreases n - i,
    {
        let p: &(u64, Vec<u8>) = &d.segs[i];
        segs.push((p.0, clone_bytes(&p.1)));
        proof {
            assert(segs_view(d.segs@).take(i + 1).drop_last()
                =~= segs_view(d.segs@).take(i as int));
            assert(segs_view(segs@) =~= segs_view(d.segs@).take(i + 1));
        }
        i = i + 1;
    }
    proof {
        assert(segs_view(d.segs@).take(n as int) =~= segs_view(d.segs@));
    }
    let r = DirImage {
        segs,
        hint: clone_opt_bytes(&d.hint),
        finish: clone_opt_bytes(&d.finish),
    };
    proof {
        assert(r@ == d@);
    }
    r
}

/// The transient merge map after one segment's records: every record
/// inserted, tombstones included, so the latest record per key — live or
/// deleted — is known.
pub open spec fn merge_seg_fold(m: Map<Seq<u8>, Locator>, seg: u64, es: Seq<SegEntry>) -> Map<Seq<u8>, Locator>
    decreases es.len(),
{
    if es.len() == 0 {
        m
    } else {
        let m2 = merge_seg_fold(m, seg, es.drop_last());
        let e = es.last();
        m2.insert(e.1, (seg, e.0 as u64, e.3))
    }
}

/// The transient merge map across segments in ascending index order.
pub open spec fn merge_fold(m: Map<Seq<u8>, Locator>, segs: SegImages) -> Option<Map<Seq<u8>, Locator>>
    decreases segs.len(),
{
    if segs.len() == 0 {
        Some(m)
    } else {
        match merge_fold(m, segs.drop_last()) {
            None => None,
            Some(m2) => {
                let (idx, c) = segs.last();
                match spec_seg_records(c, 0) {
                    None => None,
                    Some(es) => if seg_entries_crc_ok(es) {
                        Some(merge_seg_fold(m2, idx, es))
                    } else {
                        None
                    },
                }
            },
        }
    }
}

/// A corrupt prefix poisons the whole merge fold.
pub proof fn lemma_merge_fold_prefix_none(m: Map<Seq<u8>, Locator>, ss: SegImages, k: int)
    requires
        0 <= k <= ss.len(),
        merge_fold(m, ss.take(k)) is None,
    ensures
        merge_fold(m, ss) is None,
    decreases ss.len() - k,
{
    if k == ss.len() {
        assert(ss.take(k) =~= ss);
    } else {
        assert(ss.take(k + 1).drop_last() =~= ss.take(k));
        lemma_merge_fold_prefix_none(m, ss, k + 1);
    }
}

/// The value a locator resolves to among a set of segment images.
pub open spec fn loc_value(src: SegImages, l: Locator) -> Seq<u8> {
    spec_parse_record(seg_lookup(src, l.0).unwrap(), l.1 as int).unwrap().1
}

/// Every key of `m` resolves to a record frame carrying that key, with the
/// locator's flag equal to the record's.
pub open spec fn merge_resolves(m: Map<Seq<u8>, Locator>, d: Directory) -> bool {
    forall|k: Seq<u8>| #[trigger] m.contains_key(k) ==> {
        let l = m[k];
        &&& d.seg_contents(l.0) is Some
        &&& l.1 < d.seg_contents(l.0).unwrap().len()
        &&& d.seg_contents(l.0).unwrap()[l.1 as int] & FLAG_PADDING == 0
        &&& spec_parse_record(d.seg_contents(l.0).unwrap(), l.1 as int) is Some
        &&& spec_parse_record(d.seg_contents(l.0).unwrap(), l.1 as int).unwrap().0 == k
        &&& spec_parse_record(d.seg_contents(l.0).unwrap(), l.1 as int).unwrap().2 == l.2
    }
}

/// Every record of a list of segment images, tagged with its segment's
/// index, in order.
pub open spec fn segs_entries_tagged(ss: SegImages) -> Seq<(u64, SegEntry)>
    decreases ss.len(),
{
    if ss.len() == 0 {
        Seq::empty()
    } else {
        segs_entries_tagged(ss.drop_last()) + match spec_seg_records(ss.last().1, 0) {
            None => Seq::empty(),
            Some(es) => es.map_values(|e: SegEntry| (ss.last().0, e)),
        }
    }
}

/// Appending one record to the last staged segment appends one tagged entry.
pub proof fn lemma_tagged_push_record(cs: SegImages, idx: u64, c0: Seq<u8>, c1: Seq<u8>, e: SegEntry)
    requires
        spec_seg_records(c0, 0) is Some,
        spec_seg_records(c1, 0) == Some(spec_seg_records(c0, 0).unwrap().push(e)),
    ensures
        segs_entries_tagged(cs.push((idx, c1)))
            == segs_entries_tagged(cs.push((idx, c0))).push((idx, e)),
{
    let l0 = cs.push((idx, c0));
    let l1 = cs.push((idx, c1));
    assert(l0.drop_last() =~= cs);
    assert(l1.drop_last() =~= cs);
    let r0 = spec_seg_records(c0, 0).unwrap();
    let r1 = spec_seg_records(c1, 0).unwrap();
    assert(r1 == r0.push(e));
    assert(segs_entries_tagged(l1)
        =~= segs_entries_tagged(l0).push((idx, e))) by {
        let a = segs_entries_tagged(l1);
        let b = segs_entries_tagged(l0).push((idx, e));
        assert(a.len() == segs_entries_tagged(cs).len() + r1.len());
        assert(b.len() == segs_entries_tagged(cs).len() + r0.len() + 1);
        assert forall|i: int| 0 <= i < a.len() implies a[i] == b[i] by {
            let base = segs_entries_tagged(cs).len() as int;
            if i < base {
            } else if i < base + r0.len() {
                assert(a[i] == (idx, r1[i - base]));
                assert(r1[i - base] == r0[i - base]);
                assert(b[i] == (idx, r0[i - base]));
            } else {
                assert(a[i] == (idx, r1[i - base]));
                assert(r1[i - base] == e);
            }
        }
    };
}

/// A fresh empty staged segment adds no tagged entries.
pub proof fn lemma_tagged_push_empty(cs: SegImages, idx: u64)
    ensures
        segs_entries_tagged(cs.push((idx, Seq::<u8>::empty()))) == segs_entries_tagged(cs),
{
    let l = cs.push((idx, Seq::<u8>::empty()));
    assert(l.drop_last() =~= cs);
    assert(spec_seg_records(Seq::<u8>::empty(), 0) == Some(Seq::<SegEntry>::empty()));
    assert(segs_entries_tagged(l)
        =~= segs_entries_tagged(cs) + Seq::<SegEntry>::empty().map_values(|e: SegEntry| (idx, e)));
    assert(segs_entries_tagged(cs) + Seq::<SegEntry>::empty().map_values(|e: SegEntry| (idx, e))
        =~= segs_entries_tagged(cs));
}

/// What a finished merge's staging directory holds, relative to the
/// compacted segment images `src` whose largest index is `maxidx`:
/// cleanly parsing data segments with sound checksums, in strictly rising
/// index order; exactly one record per key that `src` leaves live, carrying
/// the latest value `src` gives it — tombstones elided; a hint file whose
/// records name each staged record's locator in order; and the merge-finish
/// marker naming `maxidx`.
pub open spec fn staged_ok(staged: DirImageV, src: SegImages, maxidx: u64) -> bool {
    let mm_opt = merge_fold(Map::empty(), src);
    let tagged = segs_entries_tagged(staged.0);
    &&& mm_opt is Some
    &&& staged.2 == Some(crate::hint::spec_format_decimal(maxidx))
    &&& staged.1 is Some
    &&& image_increasing(staged.0)
    &&& forall|i: int| 0 <= i < staged.0.len()
        ==> spec_seg_records((#[trigger] staged.0[i]).1, 0) is Some
            && seg_entries_crc_ok(spec_seg_records(staged.0[i].1, 0).unwrap())
    &&& forall|a: int, b: int| 0 <= a < b < tagged.len()
        ==> (#[trigger] tagged[a]).1.1 != (#[trigger] tagged[b]).1.1
    &&& forall|b: int| 0 <= b < tagged.len() ==> {
        let mm = mm_opt.unwrap();
        let k = (#[trigger] tagged[b]).1.1;
        &&& tagged[b].1.3 & FLAG_DELETED == 0
        &&& mm.contains_key(k)
        &&& mm[k].2 & FLAG_DELETED == 0
        &&& tagged[b].1.2 == loc_value(src, mm[k])
    }
    &&& forall|k: Seq<u8>| #[trigger] mm_opt.unwrap().contains_key(k)
            && mm_opt.unwrap()[k].2 & FLAG_DELETED == 0
        ==> exists|b: int| 0 <= b < tagged.len() && (#[trigger] tagged[b]).1.1 == k
    &&& spec_seg_records(staged.1.unwrap(), 0) is Some
    &&& seg_entries_crc_ok(spec_seg_records(staged.1.unwrap(), 0).unwrap())
    &&& spec_seg_records(staged.1.unwrap(), 0).unwrap().len() == tagged.len()
    &&& forall|b: int| 0 <= b < tagged.len() ==> {
        let h = spec_seg_records(staged.1.unwrap(), 0).unwrap()[b];
        &&& (#[trigger] tagged[b]).1.1 == h.1
        &&& h.3 == 0
        &&& spec_decode_hint_value(h.2) == Some((tagged[b].0, tagged[b].1.0 as u64))
    }
}

/// Conjunction introduction for `staged_ok`, in a fresh context.
proof fn lemma_staged_ok_intro(staged: DirImageV, src: SegImages, maxidx: u64)
    requires
        merge_fold(Map::empty(), src) is Some,
        staged.2 == Some(crate::hint::spec_format_decimal(maxidx)),
        staged.1 is Some,
        image_increasing(staged.0),
        forall|i: int| 0 <= i < staged.0.len()
            ==> spec_seg_records((#[trigger] staged.0[i]).1, 0) is Some
                && seg_entries_crc_ok(spec_seg_records(staged.0[i].1, 0).unwrap()),
        forall|a: int, b: int| 0 <= a < b < segs_entries_tagged(staged.0).len()
            ==> (#[trigger] segs_entries_tagged(staged.0)[a]).1.1
                != (#[trigger] segs_entries_tagged(staged.0)[b]).1.1,
        forall|b: int| 0 <= b < segs_entries_tagged(staged.0).len() ==> {
            let mm = merge_fold(Map::empty(), src).unwrap();
            let k = (#[trigger] segs_entries_tagged(staged.0)[b]).1.1;
            &&& segs_entries_tagged(staged.0)[b].1.3 & FLAG_DELETED == 0
            &&& mm.contains_key(k)
            &&& mm[k].2 & FLAG_DELETED == 0
            &&& segs_entries_tagged(staged.0)[b].1.2 == loc_value(src, mm[k])
        },
        forall|k: Seq<u8>| #[trigger] merge_fold(Map::empty(), src).unwrap().contains_key(k)
                && merge_fold(Map::empty(), src).unwrap()[k].2 & FLAG_DELETED == 0
            ==> exists|b: int| 0 <= b < segs_entries_tagged(staged.0).len()
                && (#[trigger] segs_entries_tagged(staged.0)[b]).1.1 == k,
        spec_seg_records(staged.1.unwrap(), 0) is Some,
        seg_entries_crc_ok(spec_seg_records(staged.1.unwrap(), 0).unwrap()),
        spec_seg_records(staged.1.unwrap(), 0).unwrap().len() == segs_entries_tagged(staged.0).len(),
        forall|b: int| 0 <= b < segs_entries_tagged(staged.0).len() ==> {
            let h = spec_seg_records(staged.1.unwrap(), 0).unwrap()[b];
            &&& (#[trigger] segs_entries_tagged(staged.0)[b]).1.1 == h.1
            &&& h.3 == 0
            &&& spec_decode_hint_value(h.2)
                == Some((segs_entries_tagged(staged.0)[b].0,
                    segs_entries_tagged(staged.0)[b].1.0 as u64))
        },
    ensures
        staged_ok(staged, src, maxidx),
{
}

/// Read-your-writes: once `write(k, v)` has landed, the store's mapping
/// sends `k` to `v`, and it keeps doing so across writes and deletes of
/// other keys — only a later `write(k, _)` or `delete(k)` changes it.
/// `Database::read` returns exactly the mapping's value.
pub proof fn lemma_read_your_writes(m: Map<Seq<u8>, Seq<u8>>, k: Seq<u8>, v: Seq<u8>, k2: Seq<u8>, v2: Seq<u8>)
    requires
        k2 != k,
    ensures
        m.insert(k, v).contains_key(k),
        m.insert(k, v)[k] == v,
        m.insert(k, v).insert(k2, v2).contains_key(k),
        m.insert(k, v).insert(k2, v2)[k] == v,
        m.insert(k, v).remove(k2).contains_key(k),
        m.insert(k, v).remove(k2)[k] == v,
{
}

/// Delete-your-writes: once `delete(k)` has landed, the store's mapping
/// holds no entry for `k`, and writes and deletes of other keys keep it
/// that way — only a later `write(k, _)` brings the key back.
pub proof fn lemma_delete_your_writes(m: Map<Seq<u8>, Seq<u8>>, k: Seq<u8>, k2: Seq<u8>, v2: Seq<u8>)
    requires
        k2 != k,
    ensures
        !m.remove(k).contains_key(k),
        !m.remove(k).insert(k2, v2).contains_key(k),
        !m.remove(k).remove(k2).contains_key(k),
{
}

/// Restart durability: from any reachable state with no merge staged, a
/// clean close followed by `open` of the persisted image rebuilds exactly
/// the same key-to-value mapping.  (`Database::persist` produces that
/// image, and `Database::open`'s contract ties its result to
/// `spec_open_view`.)  The one state excluded is an active segment index
/// at the very top of the u64 range, where no fresh index is left.
pub proof fn lemma_restart_durability(db: &Database)
    requires
        db.wf(),
        db.spec_merged() is None,
        db.spec_storage().spec_active().idx() < u64::MAX,
    ensures
        spec_open_view((db.spec_data_image(), None)) == Some(db@),
{
    let d = db.spec_data_image();
    assert(spec_handoff((d, None)) == Some(d));
    let ss = d.0;
    lemma_dir_segs_distinct(db.spec_storage());
    assert(image_increasing(ss)) by {
        assert forall|a: int, b: int| 0 <= a < b < ss.len()
            implies (#[trigger] ss[a]).0 < (#[trigger] ss[b]).0 by {
            if b < ss.len() - 1 {
                assert(db.spec_storage().spec_old()[a].idx()
                    < db.spec_storage().spec_old()[b].idx());
            } else if a < ss.len() - 1 {
                assert(db.spec_storage().spec_old()[a].idx()
                    < db.spec_storage().spec_active().idx());
            }
        }
    };
    assert(ss.last().0 == db.spec_storage().spec_active().idx());
    assert(spec_open_floor(d) < u64::MAX) by {
        if db.spec_hint() is Some {
            assert(spec_parse_decimal(db.spec_finish().unwrap()).unwrap()
                < db.spec_storage().spec_active().idx());
        }
    };
    assert(spec_load(ss, d.1, spec_open_floor(d)) == Some(db.spec_index()));
    assert(spec_open_ok_of(d));
}

} // verus!
