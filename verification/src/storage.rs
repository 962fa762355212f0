//! The segment store: terms mapped to byte extents in the segment file,
//! layered over the page cache, with every committed extent recorded in the
//! write-ahead log first. On startup the log is replayed to rebuild the
//! term map and position the cache at the tail of the segment.

use vstd::prelude::*;

use crate::codec::{format_record, no_comma, parse_record, parse_record_spec, record_bytes};
use crate::journal::{
    complete_lines_of_files, last_extent_of, line_clean, lines_of_files, no_newline, LogFile, WAL,
};
use crate::page::{
    append_pos, can_append, committed_byte, committed_range, cursor_end, CacheModel,
    PageCacheManager,
};
use crate::seg_file::{byte_at, range_at};
use crate::StoreError;

verus! {

/// Everything of a store that survives a shutdown: the segment file image,
/// the log files, and the next log file number.
pub struct Disk {
    pub segment: Vec<u8>,
    pub wal_files: Vec<LogFile>,
    pub wal_index: usize,
}

/// What replaying a run of records yields: the extents per term, and the
/// first file offset past the last accepted extent.
pub struct ReplayState {
    pub extents: Map<Seq<u8>, Seq<(usize, usize)>>,
    pub cursor: int,
}

/// Whether a record's extent can follow the extents replayed so far: not
/// empty, inside one page, starting at or past the cursor, and addressable.
pub open spec fn replay_ok(o: usize, s: usize, ps: int, cur: int) -> bool {
    &&& s >= 1
    &&& o as int % ps + s as int <= ps
    &&& cur <= o as int
    &&& o + s <= usize::MAX
}

/// The extent map with `e` appended to `t`'s extents, in write order.
pub open spec fn extents_insert(
    m: Map<Seq<u8>, Seq<(usize, usize)>>,
    t: Seq<u8>,
    e: (usize, usize),
) -> Map<Seq<u8>, Seq<(usize, usize)>> {
    m.insert(
        t,
        if m.dom().contains(t) {
            m[t].push(e)
        } else {
            seq![e]
        },
    )
}

/// Replays records oldest first: each line that parses as `term,offset,size`
/// and whose extent can follow what came before appends that extent to its
/// term; every other line is skipped.
pub open spec fn replay_lines(lines: Seq<Seq<u8>>, ps: int) -> ReplayState
    decreases lines.len(),
{
    if lines.len() == 0 {
        ReplayState { extents: Map::empty(), cursor: 0 }
    } else {
        let st = replay_lines(lines.drop_last(), ps);
        match parse_record_spec(lines.last()) {
            Some(rec) => {
                let (t, o, s) = rec;
                if replay_ok(o, s, ps, st.cursor) {
                    ReplayState {
                        extents: extents_insert(st.extents, t, (o, s)),
                        cursor: o + s,
                    }
                } else {
                    st
                }
            },
            None => st,
        }
    }
}

/// An extent the store may hold: nonempty, inside one page, ending at or
/// before `end`.
pub open spec fn extent_ok(e: (usize, usize), ps: int, end: int) -> bool {
    &&& e.1 >= 1
    &&& e.0 as int % ps + e.1 as int <= ps
    &&& e.0 + e.1 <= end
}

/// Every replayed extent is sound for the replay's own cursor.
pub proof fn lemma_replay_extents_ok(lines: Seq<Seq<u8>>, ps: int)
    requires
        ps >= 1,
    ensures
        0 <= replay_lines(lines, ps).cursor <= usize::MAX,
        forall|t: Seq<u8>, k: int|
            replay_lines(lines, ps).extents.dom().contains(t) && 0 <= k < replay_lines(
                lines,
                ps,
            ).extents[t].len() ==> extent_ok(
                #[trigger] replay_lines(lines, ps).extents[t][k],
                ps,
                replay_lines(lines, ps).cursor,
            ),
    decreases lines.len(),
{
    if lines.len() > 0 {
        lemma_replay_extents_ok(lines.drop_last(), ps);
        let st = replay_lines(lines.drop_last(), ps);
        let fin = replay_lines(lines, ps);
        match parse_record_spec(lines.last()) {
            Some(rec) => {
                let (t0, o, s) = rec;
                if replay_ok(o, s, ps, st.cursor) {
                    assert forall|t: Seq<u8>, k: int|
                        fin.extents.dom().contains(t) && 0 <= k < fin.extents[t].len() implies
                        extent_ok(#[trigger] fin.extents[t][k], ps, fin.cursor) by {
                        if t == t0 && k == fin.extents[t].len() - 1 {
                        } else {
                            assert(st.extents.dom().contains(t) && fin.extents[t][k]
                                == st.extents[t][k]);
                        }
                    }
                }
            },
            None => {},
        }
    }
}

/// Whether appends can resume after the recovered extent `(lo, ls)`: the
/// extent lies in one page and its page's end is addressable.
pub open spec fn resume_ok(lo: usize, ls: usize, ps: int) -> bool {
    (lo == 0 && ls == 0) || (lo as int % ps + ls as int <= ps && lo + ls <= usize::MAX && (
    lo as int / ps + 1) * ps <= usize::MAX)
}

/// Whether a disk image can be opened: file numbers leave room for more,
/// the recovered resume extent is geometrically possible, and no surviving
/// record claims bytes past it.
pub open spec fn recovery_ok(disk_files: Seq<LogFile>, wal_index: usize, ps: int) -> bool {
    let lines = complete_lines_of_files(disk_files);
    let le = last_extent_of(lines);
    &&& forall|i: int| 0 <= i < disk_files.len() ==> (#[trigger] disk_files[i]).file_index
        < usize::MAX
    &&& wal_index < usize::MAX
    &&& resume_ok(le.0, le.1, ps)
    &&& replay_lines(lines, ps).cursor <= le.0 + le.1
}

/// What each term of an extent map reads as, against live cache state.
pub open spec fn view_of_extents(ex: Map<Seq<u8>, Seq<(usize, usize)>>, m: CacheModel) -> Map<
    Seq<u8>,
    Seq<Seq<u8>>,
> {
    Map::new(
        |t: Seq<u8>| ex.dom().contains(t),
        |t: Seq<u8>|
            ex[t].map_values(|e: (usize, usize)| committed_range(m, e.0 as int, e.1 as int)),
    )
}

/// What a disk image reads as after recovery: the replayed extents, each
/// resolved against the segment file bytes.
pub open spec fn recovered_view(segment: Seq<u8>, files: Seq<LogFile>, ps: int) -> Map<
    Seq<u8>,
    Seq<Seq<u8>>,
> {
    let ex = replay_lines(complete_lines_of_files(files), ps).extents;
    Map::new(
        |t: Seq<u8>| ex.dom().contains(t),
        |t: Seq<u8>| ex[t].map_values(|e: (usize, usize)| range_at(segment, e.0 as int, e.1 as int)),
    )
}

/// The term map as a mathematical map; later entries shadow none, the keys
/// being distinct.
pub open spec fn assoc_map(l: Seq<(Vec<u8>, Vec<(usize, usize)>)>) -> Map<
    Seq<u8>,
    Seq<(usize, usize)>,
>
    decreases l.len(),
{
    if l.len() == 0 {
        Map::empty()
    } else {
        assoc_map(l.drop_last()).insert(l.last().0@, l.last().1@)
    }
}

pub open spec fn distinct_keys(l: Seq<(Vec<u8>, Vec<(usize, usize)>)>) -> bool {
    forall|i: int, j: int| 0 <= i < j < l.len() ==> l[i].0@ != l[j].0@
}

pub proof fn lemma_assoc_map_domain(l: Seq<(Vec<u8>, Vec<(usize, usize)>)>)
    ensures
        forall|t: Seq<u8>|
            assoc_map(l).dom().contains(t) <==> exists|i: int|
                0 <= i < l.len() && (#[trigger] l[i]).0@ == t,
    decreases l.len(),
{
    if l.len() > 0 {
        lemma_assoc_map_domain(l.drop_last());
        assert forall|t: Seq<u8>| assoc_map(l).dom().contains(t) implies exists|i: int|
            0 <= i < l.len() && (#[trigger] l[i]).0@ == t by {
            if t == l.last().0@ {
                assert(0 <= l.len() - 1 < l.len() && (l[l.len() - 1]).0@ == t);
            } else {
                assert(assoc_map(l.drop_last()).dom().contains(t));
                let i = choose|i: int|
                    0 <= i < l.drop_last().len() && (#[trigger] l.drop_last()[i]).0@ == t;
                assert(l.drop_last()[i] == l[i]);
                assert(0 <= i < l.len() && (l[i]).0@ == t);
            }
        }
        assert forall|t: Seq<u8>|
            (exists|i: int| 0 <= i < l.len() && (#[trigger] l[i]).0@ == t) implies assoc_map(
            l,
        ).dom().contains(t) by {
            let i = choose|i: int| 0 <= i < l.len() && (#[trigger] l[i]).0@ == t;
            if i < l.len() - 1 {
                assert(0 <= i < l.drop_last().len() && (l.drop_last()[i]).0@ == t);
                assert(assoc_map(l.drop_last()).dom().contains(t));
            } else {
                assert(t == l.last().0@);
            }
        }
    }
}

pub proof fn lemma_assoc_map_index(l: Seq<(Vec<u8>, Vec<(usize, usize)>)>, i: int)
    requires
        distinct_keys(l),
        0 <= i < l.len(),
    ensures
        assoc_map(l).dom().contains(l[i].0@),
        assoc_map(l)[l[i].0@] == l[i].1@,
    decreases l.len(),
{
    if i == l.len() - 1 {
    } else {
        assert(distinct_keys(l.drop_last()));
        lemma_assoc_map_index(l.drop_last(), i);
        assert(l.drop_last()[i] == l[i]);
        assert(l[i].0@ != l.last().0@);
    }
}

pub proof fn lemma_assoc_map_push(l: Seq<(Vec<u8>, Vec<(usize, usize)>)>, p: (Vec<u8>, Vec<(usize, usize)>))
    ensures
        assoc_map(l.push(p)) == assoc_map(l).insert(p.0@, p.1@),
{
    assert(l.push(p).drop_last() =~= l);
    assert(l.push(p).last() == p);
}

pub proof fn lemma_assoc_map_update(
    l: Seq<(Vec<u8>, Vec<(usize, usize)>)>,
    k: int,
    p: (Vec<u8>, Vec<(usize, usize)>),
)
    requires
        distinct_keys(l),
        0 <= k < l.len(),
        p.0@ == l[k].0@,
    ensures
        assoc_map(l.update(k, p)) =~= assoc_map(l).insert(p.0@, p.1@),
    decreases l.len(),
{
    let t = l.update(k, p);
    if k == l.len() - 1 {
        assert(t.drop_last() =~= l.drop_last());
        assert(t.last() == p);
    } else {
        assert(distinct_keys(l.drop_last()));
        assert(t.drop_last() =~= l.drop_last().update(k, p));
        lemma_assoc_map_update(l.drop_last(), k, p);
        assert(t.last() == l.last());
        assert(l[k].0@ != l.last().0@);
    }
}

/// Compares two byte strings for equality.
pub fn bytes_eq(a: &[u8], b: &[u8]) -> (r: bool)
    ensures
        r == (a@ == b@),
{
    if a.len() != b.len() {
        proof {
            assert(a@ != b@);
        }
        return false;
    }
    let n = a.len();
    let mut i: usize = 0;
    while i < n
        invariant
            0 <= i <= n == a@.len() == b@.len(),
            forall|j: int| 0 <= j < i ==> a@[j] == b@[j],
        decreases n - i,
    {
        if a[i] != b[i] {
            proof {
                assert(a@ != b@);
            }
            return false;
        }
        i = i + 1;
    }
    proof {
        assert(a@ =~= b@);
    }
    true
}

/// Maps logical keys (terms) to byte extents of the segment file; owns the
/// page cache and the write-ahead log.
pub struct SegmentStore {
    page_cache: PageCacheManager,
    term_offsets: Vec<(Vec<u8>, Vec<(usize, usize)>)>,
    wal: WAL,
}

impl SegmentStore {
    /// The page cache's mathematical state.
    pub closed spec fn cache(self) -> CacheModel {
        self.page_cache@
    }

    /// The recorded extents of every term, in write order.
    pub closed spec fn extents(self) -> Map<Seq<u8>, Seq<(usize, usize)>> {
        assoc_map(self.term_offsets@)
    }

    /// Every record in the log, oldest first.
    pub closed spec fn lines(self) -> Seq<Seq<u8>> {
        self.wal.lines()
    }

    pub closed spec fn wal_limit(self) -> int {
        self.wal.size_limit()
    }

    /// What each term reads as: one byte buffer per extent, in write order.
    pub open spec fn view(self) -> Map<Seq<u8>, Seq<Seq<u8>>> {
        view_of_extents(self.extents(), self.cache())
    }

    pub closed spec fn inv(self) -> bool {
        &&& self.page_cache.inv()
        &&& self.wal.inv()
        &&& distinct_keys(self.term_offsets@)
        &&& replay_lines(self.wal.lines(), self.cache().page_size).extents == self.extents()
        &&& replay_lines(self.wal.lines(), self.cache().page_size).cursor <= cursor_end(
            self.cache(),
        )
        &&& last_extent_of(self.wal.lines()).0 == self.cache().last_offset
        &&& last_extent_of(self.wal.lines()).1 == self.cache().last_size
        &&& forall|i: int, k: int|
            0 <= i < self.term_offsets@.len() && 0 <= k < self.term_offsets@[i].1@.len()
                ==> extent_ok(
                #[trigger] self.term_offsets@[i].1@[k],
                self.cache().page_size,
                cursor_end(self.cache()),
            )
    }

    /// Room for one more append and one more log record.
    pub closed spec fn can_write(self) -> bool {
        can_append(self.cache()) && self.wal.can_log()
    }

    /// Every recorded extent is nonempty, lies in one page, and ends at or
    /// before the append cursor.
    pub proof fn lemma_extents_ok(self)
        requires
            self.inv(),
        ensures
            forall|t: Seq<u8>, k: int|
                self.extents().dom().contains(t) && 0 <= k < self.extents()[t].len()
                    ==> extent_ok(
                    #[trigger] self.extents()[t][k],
                    self.cache().page_size,
                    cursor_end(self.cache()),
                ),
    {
        lemma_assoc_map_domain(self.term_offsets@);
        assert forall|t: Seq<u8>, k: int|
            self.extents().dom().contains(t) && 0 <= k < self.extents()[t].len() implies
            extent_ok(
            #[trigger] self.extents()[t][k],
            self.cache().page_size,
            cursor_end(self.cache()),
        ) by {
            let i = choose|i: int|
                0 <= i < self.term_offsets@.len() && (#[trigger] self.term_offsets@[i]).0@ == t;
            lemma_assoc_map_index(self.term_offsets@, i);
            assert(self.extents()[t][k] == self.term_offsets@[i].1@[k]);
        }
    }

    /// Opens a store over a disk image: replays the log into the term map,
    /// locates the segment tail, and positions the page cache there. A disk
    /// whose surviving records no store could have produced is refused.
    pub fn new(disk: Disk, page_size: usize, cap: usize, wal_size_limit: usize) -> (r: Result<
        SegmentStore,
        StoreError,
    >)
        requires
            page_size >= 1,
            cap >= 1,
        ensures
            match r {
                Ok(store) => {
                    &&& recovery_ok(disk.wal_files@, disk.wal_index, page_size as int)
                    &&& store.inv()
                    &&& store.cache().page_size == page_size as int
                    &&& store.cache().cap == cap as int
                    &&& store.wal_limit() == wal_size_limit as int
                    &&& store.lines() == complete_lines_of_files(disk.wal_files@)
                    &&& store.extents() == replay_lines(
                        complete_lines_of_files(disk.wal_files@),
                        page_size as int,
                    ).extents
                    &&& store.view() == recovered_view(
                        disk.segment@,
                        disk.wal_files@,
                        page_size as int,
                    )
                    &&& ({
                        let le = last_extent_of(complete_lines_of_files(disk.wal_files@));
                        &&& store.cache().last_offset == le.0
                        &&& store.cache().last_size == le.1
                        &&& store.cache().next_page_id == (if le == (0usize, 0usize) {
                            0int
                        } else {
                            le.0 as int / page_size as int + 1
                        })
                    })
                },
                Err(e) => {
                    &&& e == StoreError::CorruptRecord
                    &&& !recovery_ok(disk.wal_files@, disk.wal_index, page_size as int)
                },
            },
    {
        let Disk { segment, wal_files, wal_index } = disk;
        let ghost files0 = wal_files@;
        let ghost psi = page_size as int;
        if wal_index == usize::MAX {
            return Err(StoreError::CorruptRecord);
        }
        let nf = wal_files.len();
        let mut i: usize = 0;
        while i < nf
            invariant
                0 <= i <= nf == wal_files@.len(),
                wal_files@ == files0,
                forall|j: int| 0 <= j < i ==> (#[trigger] files0[j]).file_index < usize::MAX,
            decreases nf - i,
        {
            if wal_files[i].file_index == usize::MAX {
                return Err(StoreError::CorruptRecord);
            }
            i = i + 1;
        }
        let mut wal = WAL::open(wal_files, wal_size_limit, wal_index);
        if wal.file_count() == 0 {
            wal.create_file();
        }
        let ghost lns = wal.lines();
        let le = wal.find_last_page_last_written_offset();
        let lo = le.0;
        let ls = le.1;
        if !(lo == 0 && ls == 0) {
            if ls > page_size || lo % page_size > page_size - ls {
                return Err(StoreError::CorruptRecord);
            }
            if lo > usize::MAX - ls {
                return Err(StoreError::CorruptRecord);
            }
            let q = lo / page_size;
            if q == usize::MAX || q + 1 > usize::MAX / page_size {
                proof {
                    lemma_div_mul_bound(psi, q as int + 1);
                }
                return Err(StoreError::CorruptRecord);
            }
            proof {
                lemma_div_mul_bound(psi, q as int + 1);
            }
        }
        let records = wal.read_records();
        let ghost rvs = records@.map_values(|v: Vec<u8>| v@);
        let mut term_offsets: Vec<(Vec<u8>, Vec<(usize, usize)>)> = Vec::new();
        let mut cur: usize = 0;
        let nr = records.len();
        let mut j: usize = 0;
        proof {
            assert(lns.subrange(0, 0) =~= Seq::<Seq<u8>>::empty());
        }
        while j < nr
            invariant
                0 <= j <= nr == records@.len(),
                rvs == lns,
                rvs == records@.map_values(|v: Vec<u8>| v@),
                lns.len() == nr,
                page_size >= 1,
                distinct_keys(term_offsets@),
                assoc_map(term_offsets@) == replay_lines(lns.subrange(0, j as int), psi).extents,
                cur as int == replay_lines(lns.subrange(0, j as int), psi).cursor,
                forall|i2: int, k: int|
                    0 <= i2 < term_offsets@.len() && 0 <= k < term_offsets@[i2].1@.len()
                        ==> extent_ok(#[trigger] term_offsets@[i2].1@[k], psi, cur as int),
            decreases nr - j,
        {
            proof {
                assert(records@.map_values(|v: Vec<u8>| v@)[j as int] == records@[j as int]@);
                assert(lns.subrange(0, j + 1int).drop_last() =~= lns.subrange(0, j as int));
                assert(lns.subrange(0, j + 1int).last() == lns[j as int]);
            }
            let ghost pre_list = term_offsets@;
            match parse_record(records[j].as_slice()) {
                Some(rec) => {
                    let (t, o, s) = rec;
                    let ok = s >= 1 && s <= page_size && o % page_size <= page_size - s && cur
                        <= o && o <= usize::MAX - s;
                    if ok {
                        push_extent(&mut term_offsets, t, o, s);
                        cur = o + s;
                        proof {
                            assert forall|i2: int, k: int|
                                0 <= i2 < term_offsets@.len() && 0 <= k
                                    < term_offsets@[i2].1@.len() implies extent_ok(
                                #[trigger] term_offsets@[i2].1@[k],
                                psi,
                                cur as int,
                            ) by {
                                if term_offsets@.len() == pre_list.len() + 1 {
                                    if i2 < pre_list.len() {
                                        assert(term_offsets@[i2] == pre_list[i2]);
                                    }
                                } else {
                                    let idx = choose|idx: int|
                                        0 <= idx < pre_list.len() && (
                                        #[trigger] term_offsets@[idx]).0@ == t@
                                            && term_offsets@[idx].1@ == pre_list[idx].1@.push(
                                            (o, s),
                                        ) && (forall|j2: int|
                                            0 <= j2 < pre_list.len() && j2 != idx
                                                ==> term_offsets@[j2] == pre_list[j2])
                                            && pre_list[idx].0@ == t@;
                                    if i2 == idx {
                                        if k < pre_list[idx].1@.len() {
                                            assert(term_offsets@[i2].1@[k]
                                                == pre_list[i2].1@[k]);
                                        }
                                    } else {
                                        assert(term_offsets@[i2] == pre_list[i2]);
                                    }
                                }
                            }
                        }
                    }
                },
                None => {},
            }
            j = j + 1;
        }
        proof {
            assert(lns.subrange(0, nr as int) =~= lns);
        }
        if ls > 0 && cur > lo + ls {
            return Err(StoreError::CorruptRecord);
        }
        if ls == 0 && cur > lo {
            proof {
                if lo == 0 && ls == 0 {
                } else {
                    assert(!recovery_ok(files0, wal_index, psi));
                }
            }
            return Err(StoreError::CorruptRecord);
        }
        let page_cache = PageCacheManager::new(segment, page_size, cap, (lo, ls));
        let store = SegmentStore { page_cache, term_offsets, wal };
        proof {
            store.page_cache.lemma_inv_cache_wf();
            assert(store.inv());
            lemma_view_from_file(store.extents(), store.cache());
            assert(store.view() =~= recovered_view(segment@, files0, psi));
        }
        Ok(store)
    }
}

/// A term's readable contents with one more buffer appended: what a write
/// does to the store's view.
pub open spec fn view_insert(v: Map<Seq<u8>, Seq<Seq<u8>>>, t: Seq<u8>, d: Seq<u8>) -> Map<
    Seq<u8>,
    Seq<Seq<u8>>,
> {
    v.insert(
        t,
        (if v.dom().contains(t) {
            v[t]
        } else {
            Seq::empty()
        }).push(d),
    )
}

impl SegmentStore {
    /// The store between the segment append and the log append: the extent
    /// `(offset, size)` holds the payload and the cursor, but no record or
    /// map entry names it yet.
    pub closed spec fn ready_to_record(self, offset: usize, size: usize) -> bool {
        &&& self.page_cache.inv()
        &&& self.wal.inv()
        &&& self.wal.can_log()
        &&& distinct_keys(self.term_offsets@)
        &&& replay_lines(self.wal.lines(), self.cache().page_size).extents == self.extents()
        &&& replay_lines(self.wal.lines(), self.cache().page_size).cursor <= offset as int
        &&& last_extent_of(self.wal.lines()).0 + last_extent_of(self.wal.lines()).1 <= offset
            as int
        &&& self.cache().last_offset == offset as int
        &&& self.cache().last_size == size as int
        &&& size >= 1
        &&& offset as int % self.cache().page_size + size as int <= self.cache().page_size
        &&& offset + size <= usize::MAX
        &&& cursor_end(self.cache()) == offset + size
        &&& forall|i: int, k: int|
            0 <= i < self.term_offsets@.len() && 0 <= k < self.term_offsets@[i].1@.len()
                ==> extent_ok(
                #[trigger] self.term_offsets@[i].1@[k],
                self.cache().page_size,
                offset as int,
            )
    }

    /// Appends the payload to the segment through the page cache; the extent
    /// is not yet recorded. `None` when the payload is larger than one page.
    pub fn write_bytes(&mut self, data: &[u8]) -> (r: Option<(usize, usize, usize)>)
        requires
            old(self).inv(),
            old(self).can_write(),
            data@.len() >= 1,
        ensures
            final(self).cache().page_size == old(self).cache().page_size,
            final(self).cache().cap == old(self).cache().cap,
            final(self).wal_limit() == old(self).wal_limit(),
            final(self).lines() == old(self).lines(),
            final(self).extents() == old(self).extents(),
            match r {
                Some(v) => {
                    let (o, t, s) = v;
                    &&& data@.len() <= old(self).cache().page_size
                    &&& o == append_pos(old(self).cache(), data@.len() as int)
                    &&& s == data@.len()
                    &&& t == o + s
                    &&& o as int % old(self).cache().page_size + s as int <= old(
                        self,
                    ).cache().page_size
                    &&& cursor_end(old(self).cache()) <= o
                    &&& forall|addr: int|
                        addr < o ==> committed_byte(final(self).cache(), addr) == committed_byte(
                            old(self).cache(),
                            addr,
                        )
                    &&& committed_range(final(self).cache(), o as int, s as int) == data@
                    &&& final(self).ready_to_record(o, s)
                },
                None => {
                    &&& data@.len() > old(self).cache().page_size
                    &&& final(self).cache() == old(self).cache()
                    &&& final(self).inv()
                },
            },
    {
        match self.page_cache.write(data) {
            Ok(v) => {
                proof {
                    let (o, t, s) = v;
                    assert(self.ready_to_record(o, s)) by {
                        assert(replay_lines(
                            self.wal.lines(),
                            self.cache().page_size,
                        ).cursor <= cursor_end(old(self).cache()));
                        assert(cursor_end(old(self).cache()) <= o as int);
                        assert forall|i: int, k: int|
                            0 <= i < self.term_offsets@.len() && 0 <= k
                                < self.term_offsets@[i].1@.len() implies extent_ok(
                            #[trigger] self.term_offsets@[i].1@[k],
                            self.cache().page_size,
                            o as int,
                        ) by {
                            assert(extent_ok(
                                self.term_offsets@[i].1@[k],
                                old(self).cache().page_size,
                                cursor_end(old(self).cache()),
                            ));
                        }
                    }
                }
                Some(v)
            },
            Err(e) => None,
        }
    }

    /// Records a freshly appended extent: first as a log line, durable, then
    /// in the term map. When the record is too large for any log file the
    /// extent stays unrecorded and the map untouched.
    pub fn write_term_offsets(&mut self, term: Vec<u8>, offset: usize, size: usize) -> (r: Result<
        (usize, usize),
        StoreError,
    >)
        requires
            old(self).ready_to_record(offset, size),
            term@.len() >= 1,
            no_comma(term@),
            no_newline(term@),
        ensures
            final(self).cache() == old(self).cache(),
            final(self).wal_limit() == old(self).wal_limit(),
            match r {
                Ok(v) => {
                    &&& v == (offset, size)
                    &&& record_bytes(term@, offset as int, size as int).len() + 1 <= old(
                        self,
                    ).wal_limit()
                    &&& final(self).inv()
                    &&& final(self).extents() == extents_insert(
                        old(self).extents(),
                        term@,
                        (offset, size),
                    )
                    &&& final(self).lines() == old(self).lines().push(
                        record_bytes(term@, offset as int, size as int),
                    )
                },
                Err(e) => {
                    &&& e == StoreError::CapacityExceeded
                    &&& record_bytes(term@, offset as int, size as int).len() + 1 > old(
                        self,
                    ).wal_limit()
                    &&& *final(self) == *old(self)
                },
            },
    {
        let record = format_record(term.as_slice(), offset, size);
        proof {
            crate::codec::lemma_record_no_newline(term@, offset, size);
            crate::codec::lemma_dec_rep_digits(offset as int);
        }
        let ghost pre = *self;
        match self.wal.log(record.as_slice()) {
            Ok(_) => {
                let ghost rec = record@;
                let ghost psi = self.cache().page_size;
                push_extent(&mut self.term_offsets, term, offset, size);
                proof {
                    let lns = pre.wal.lines();
                    let lns2 = self.wal.lines();
                    assert(lns2 == lns.push(rec));
                    crate::codec::lemma_record_round_trip(term@, offset, size);
                    assert(lns2.drop_last() =~= lns);
                    assert(lns2.last() == rec);
                    assert(parse_record_spec(rec) == Some((term@, offset, size)));
                    assert(replay_ok(offset, size, psi, replay_lines(lns, psi).cursor));
                    assert(replay_lines(lns2, psi).extents == extents_insert(
                        replay_lines(lns, psi).extents,
                        term@,
                        (offset, size),
                    ));
                    assert(replay_lines(lns2, psi).cursor == offset + size);
                    let le = last_extent_of(lns);
                    assert(last_extent_of(lns2) == (offset, size)) by {
                        assert(last_extent_of(lns2).0 == offset as usize
                            && last_extent_of(lns2).1 == size) by {
                            if le.0 > offset {
                                assert(false);
                            }
                        }
                    }
                    let pre_list = pre.term_offsets@;
                    assert forall|i: int, k: int|
                        0 <= i < self.term_offsets@.len() && 0 <= k
                            < self.term_offsets@[i].1@.len() implies extent_ok(
                        #[trigger] self.term_offsets@[i].1@[k],
                        psi,
                        cursor_end(self.cache()),
                    ) by {
                        if self.term_offsets@.len() == pre_list.len() + 1 {
                            if i < pre_list.len() {
                                assert(self.term_offsets@[i] == pre_list[i]);
                            }
                        } else {
                            let idx = choose|idx: int|
                                0 <= idx < pre_list.len() && (
                                #[trigger] self.term_offsets@[idx]).0@ == term@
                                    && self.term_offsets@[idx].1@ == pre_list[idx].1@.push(
                                    (offset, size),
                                ) && (forall|j2: int|
                                    0 <= j2 < pre_list.len() && j2 != idx
                                        ==> self.term_offsets@[j2] == pre_list[j2])
                                    && pre_list[idx].0@ == term@;
                            if i == idx {
                                if k < pre_list[idx].1@.len() {
                                    assert(self.term_offsets@[i].1@[k] == pre_list[i].1@[k]);
                                }
                            } else {
                                assert(self.term_offsets@[i] == pre_list[i]);
                            }
                        }
                    }
                }
                Ok((offset, size))
            },
            Err(e) => Err(e),
        }
    }

    /// Writes a posting-list fragment for `term`: appends the bytes to the
    /// segment, records the extent in the log, then makes it visible in the
    /// term map. Returns the extent `(offset, size)`. Refused when the
    /// payload cannot fit one page or the record cannot fit one log file;
    /// then nothing changes.
    pub fn write(&mut self, term: Vec<u8>, data: &[u8]) -> (r: Result<
        (usize, usize),
        StoreError,
    >)
        requires
            old(self).inv(),
            old(self).can_write(),
            term@.len() >= 1,
            no_comma(term@),
            no_newline(term@),
            data@.len() >= 1,
        ensures
            final(self).cache().page_size == old(self).cache().page_size,
            final(self).cache().cap == old(self).cache().cap,
            final(self).wal_limit() == old(self).wal_limit(),
            ({
                let o = append_pos(old(self).cache(), data@.len() as int);
                let ps = old(self).cache().page_size;
                match r {
                    Ok(v) => {
                        &&& final(self).inv()
                        &&& v.0 == o
                        &&& v.1 == data@.len()
                        &&& data@.len() <= ps
                        &&& record_bytes(term@, o as int, data@.len() as int).len() + 1 <= old(
                            self,
                        ).wal_limit()
                        &&& v.0 as int % ps + v.1 as int <= ps
                        &&& final(self).extents() == extents_insert(
                            old(self).extents(),
                            term@,
                            v,
                        )
                        &&& final(self).view() == view_insert(old(self).view(), term@, data@)
                    },
                    Err(e) => {
                        &&& e == StoreError::CapacityExceeded
                        &&& final(self).inv()
                        &&& *final(self) == *old(self)
                        &&& (data@.len() > ps || record_bytes(
                            term@,
                            o as int,
                            data@.len() as int,
                        ).len() + 1 > old(self).wal_limit())
                    },
                }
            }),
    {
        let len = data.len();
        if len > self.page_cache.page_size() {
            return Err(StoreError::CapacityExceeded);
        }
        let o_pred = self.page_cache.append_position(len);
        let record = format_record(term.as_slice(), o_pred, len);
        let limit = self.wal.limit();
        if record.len() >= limit {
            return Err(StoreError::CapacityExceeded);
        }
        let ghost pre = *self;
        let v = match self.write_bytes(data) {
            Some(v) => v,
            None => {
                proof {
                    assert(false);
                }
                return Err(StoreError::CapacityExceeded);
            },
        };
        let (o, _t, s) = v;
        let ghost mid = *self;
        let r = self.write_term_offsets(term, o, s);
        match r {
            Ok(v2) => {
                proof {
                    lemma_view_insert(pre, mid, *self, term@, data@, o, s);
                }
                Ok(v2)
            },
            Err(e) => {
                proof {
                    assert(false);
                }
                Err(e)
            },
        }
    }
}

impl SegmentStore {
    /// The next log file number; what the snapshot must remember.
    pub closed spec fn wal_next_index(self) -> int {
        self.wal.next_index()
    }

    /// Room for one more log file number.
    pub closed spec fn can_log(self) -> bool {
        self.wal.can_log()
    }

    /// Whether the store can take one more write: room in the address space
    /// for another page and in the number space for another log file. The
    /// caller tests this before writing.
    pub fn may_write(&self) -> (r: bool)
        requires
            self.inv(),
        ensures
            r == self.can_write(),
    {
        self.page_cache.can_append_now() && self.wal.current_index() < usize::MAX
    }

    /// The recorded buffers of `term`, in write order: one owned byte buffer
    /// per extent. A term that was never written is not found.
    pub fn read_bytes(&mut self, term: &[u8]) -> (r: Result<Vec<Vec<u8>>, StoreError>)
        requires
            old(self).inv(),
        ensures
            final(self).inv(),
            final(self).extents() == old(self).extents(),
            final(self).lines() == old(self).lines(),
            final(self).wal_limit() == old(self).wal_limit(),
            final(self).view() == old(self).view(),
            final(self).cache().page_size == old(self).cache().page_size,
            final(self).cache().cap == old(self).cache().cap,
            final(self).cache().last_offset == old(self).cache().last_offset,
            final(self).cache().last_size == old(self).cache().last_size,
            final(self).cache().next_page_id == old(self).cache().next_page_id,
            final(self).can_log() == old(self).can_log(),
            match r {
                Ok(bufs) => {
                    &&& old(self).view().dom().contains(term@)
                    &&& bufs@.len() == old(self).view()[term@].len()
                    &&& forall|k: int|
                        0 <= k < bufs@.len() ==> (#[trigger] bufs@[k])@ == old(
                            self,
                        ).view()[term@][k]
                },
                Err(e) => {
                    &&& e == StoreError::NotFound
                    &&& !old(self).view().dom().contains(term@)
                },
            },
    {
        let ghost m0 = self.cache();
        let n = self.term_offsets.len();
        let mut i: usize = 0;
        let mut found: Option<usize> = None;
        while i < n && found.is_none()
            invariant
                0 <= i <= n == self.term_offsets@.len(),
                *self == *old(self),
                match found {
                    Some(idx) => idx < n && self.term_offsets@[idx as int].0@ == term@,
                    None => forall|j: int|
                        0 <= j < i ==> (#[trigger] self.term_offsets@[j]).0@ != term@,
                },
            decreases n - i + (if found is Some {
                0int
            } else {
                1int
            }),
        {
            if bytes_eq(self.term_offsets[i].0.as_slice(), term) {
                found = Some(i);
            } else {
                i = i + 1;
            }
        }
        proof {
            lemma_assoc_map_domain(self.term_offsets@);
        }
        let idx = match found {
            Some(idx) => idx,
            None => {
                return Err(StoreError::NotFound);
            },
        };
        proof {
            lemma_assoc_map_index(self.term_offsets@, idx as int);
        }
        let exts = copy_extents(&self.term_offsets[idx].1);
        let ghost evs = exts@;
        let ne = exts.len();
        let mut bufs: Vec<Vec<u8>> = Vec::new();
        let mut k: usize = 0;
        proof {
            self.page_cache.lemma_inv_cache_wf();
        }
        while k < ne
            invariant
                0 <= k <= ne == evs.len(),
                exts@ == evs,
                evs == old(self).extents()[term@],
                old(self).inv(),
                self.page_cache.inv(),
                self.term_offsets@ == old(self).term_offsets@,
                self.wal == old(self).wal,
                self.cache().page_size == m0.page_size,
                self.cache().cap == m0.cap,
                self.cache().last_offset == m0.last_offset,
                self.cache().last_size == m0.last_size,
                self.cache().next_page_id == m0.next_page_id,
                m0 == old(self).cache(),
                forall|addr: int|
                    committed_byte(self.cache(), addr) == committed_byte(m0, addr),
                forall|i2: int, k2: int|
                    0 <= i2 < self.term_offsets@.len() && 0 <= k2
                        < self.term_offsets@[i2].1@.len() ==> extent_ok(
                        #[trigger] self.term_offsets@[i2].1@[k2],
                        m0.page_size,
                        cursor_end(m0),
                    ),
                bufs@.len() == k,
                forall|k2: int|
                    0 <= k2 < k ==> (#[trigger] bufs@[k2])@ == committed_range(
                        m0,
                        evs[k2].0 as int,
                        evs[k2].1 as int,
                    ),
            decreases ne - k,
        {
            let e = exts[k];
            proof {
                assert(extent_ok(evs[k as int], m0.page_size, cursor_end(m0))) by {
                    assert(self.term_offsets@[idx as int].1@[k as int] == evs[k as int]);
                }
                assert(e.0 + e.1 <= usize::MAX);
            }
            let buf = self.page_cache.read(e.0, e.1);
            proof {
                assert(buf@ =~= committed_range(m0, e.0 as int, e.1 as int));
            }
            bufs.push(buf);
            k = k + 1;
        }
        proof {
            lemma_view_of_extents_eq(self.extents(), m0, self.cache());
            assert(self.view() =~= old(self).view());
            assert forall|k2: int| 0 <= k2 < bufs@.len() implies (#[trigger] bufs@[k2])@ == old(
                self,
            ).view()[term@][k2] by {
                assert(old(self).view()[term@][k2] == committed_range(
                    m0,
                    evs[k2].0 as int,
                    evs[k2].1 as int,
                ));
            }
        }
        Ok(bufs)
    }

    /// Writes every dirty page back to the segment file; afterwards every
    /// committed byte stands in the file itself.
    pub fn sync(&mut self)
        requires
            old(self).inv(),
        ensures
            final(self).inv(),
            final(self).extents() == old(self).extents(),
            final(self).lines() == old(self).lines(),
            final(self).wal_limit() == old(self).wal_limit(),
            final(self).view() == old(self).view(),
            final(self).can_log() == old(self).can_log(),
            final(self).cache().page_size == old(self).cache().page_size,
            forall|addr: int|
                committed_byte(final(self).cache(), addr) == byte_at(
                    final(self).cache().file,
                    addr,
                ),
    {
        let ghost m0 = self.cache();
        self.page_cache.flush_all();
        proof {
            lemma_view_of_extents_eq(self.extents(), m0, self.cache());
            assert(self.view() =~= old(self).view());
        }
    }

    /// Shuts the store down: flushes every dirty page, then hands back the
    /// disk image. Opening a store over that image yields the same readable
    /// contents for every term.
    pub fn close(self) -> (d: Disk)
        requires
            self.inv(),
        ensures
            lines_of_files(d.wal_files@) == self.lines(),
            complete_lines_of_files(d.wal_files@) == self.lines(),
            d.wal_index == self.wal_next_index(),
            forall|addr: int|
                byte_at(d.segment@, addr) == committed_byte(self.cache(), addr),
            self.can_log() ==> recovery_ok(d.wal_files@, d.wal_index, self.cache().page_size),
            replay_lines(
                complete_lines_of_files(d.wal_files@),
                self.cache().page_size,
            ).extents == self.extents(),
            recovered_view(d.segment@, d.wal_files@, self.cache().page_size) == self.view(),
    {
        let ghost m0 = self.cache();
        let ghost psi = self.cache().page_size;
        let SegmentStore { mut page_cache, term_offsets, wal } = self;
        proof {
            assert(wal == self.wal);
            assert(page_cache@ == m0);
            page_cache.lemma_inv_cache_wf();
        }
        page_cache.flush_all();
        let ghost m1 = page_cache@;
        let (wal_files, wal_index) = wal.into_parts();
        let segment = page_cache.into_file_bytes();
        let d = Disk { segment, wal_files, wal_index };
        proof {
            self.wal.lemma_inv_files();
            crate::journal::lemma_complete_lines_clean(d.wal_files@);
            assert forall|addr: int|
                byte_at(d.segment@, addr) == committed_byte(self.cache(), addr) by {
                assert(committed_byte(m1, addr) == byte_at(m1.file, addr));
                assert(committed_byte(m1, addr) == committed_byte(m0, addr));
            }
            assert(lines_of_files(d.wal_files@) == self.lines());
            assert(complete_lines_of_files(d.wal_files@) == self.lines());
            let le = last_extent_of(self.lines());
            assert(le.0 as int == m0.last_offset && le.1 as int == m0.last_size);
            if self.can_log() {
                assert(recovery_ok(d.wal_files@, d.wal_index, psi)) by {
                    self.wal.lemma_inv_files();
                    assert(forall|i: int|
                        0 <= i < d.wal_files@.len() ==> (#[trigger] d.wal_files@[i]).file_index
                            < usize::MAX);
                    assert(d.wal_index < usize::MAX);
                    assert(resume_ok(le.0, le.1, psi)) by {
                        if m0.next_page_id == 0 {
                        } else {
                            vstd::arithmetic::mul::lemma_mul_is_distributive_add_other_way(
                                psi,
                                m0.next_page_id - 1,
                                1,
                            );
                            assert((le.0 as int / psi + 1) * psi == m0.next_page_id * psi);
                        }
                    }
                    assert(replay_lines(complete_lines_of_files(d.wal_files@), psi).cursor
                        <= le.0 + le.1);
                }
            }
            self.wal.lemma_inv_files();
            lemma_clean_restart(d.segment@, d.wal_files@, self.extents(), m0);
        }
        d
    }
}

/// A clean restart preserves every term's readable contents: recovering from
/// a disk image whose log files are complete, whose surviving records replay
/// to exactly the store's extents, and whose segment bytes agree with every
/// committed byte, reads every term as the closed store did.
pub proof fn lemma_clean_restart(
    segment: Seq<u8>,
    files: Seq<LogFile>,
    ex: Map<Seq<u8>, Seq<(usize, usize)>>,
    m: CacheModel,
)
    requires
        forall|i: int| 0 <= i < files.len() ==> line_clean((#[trigger] files[i]).contents@),
        replay_lines(lines_of_files(files), m.page_size).extents == ex,
        forall|addr: int| byte_at(segment, addr) == committed_byte(m, addr),
    ensures
        recovered_view(segment, files, m.page_size) == view_of_extents(ex, m),
{
    crate::journal::lemma_complete_lines_clean(files);
    assert(replay_lines(complete_lines_of_files(files), m.page_size).extents == ex);
    let rv = recovered_view(segment, files, m.page_size);
    assert(rv.dom() =~= view_of_extents(ex, m).dom());
    assert forall|t: Seq<u8>| rv.dom().contains(t) implies rv[t] == view_of_extents(ex, m)[t] by {
        assert(ex.dom().contains(t));
        let a = rv[t];
        let b = view_of_extents(ex, m)[t];
        assert(a == ex[t].map_values(
            |e: (usize, usize)| range_at(segment, e.0 as int, e.1 as int),
        ));
        assert forall|k: int| 0 <= k < a.len() implies #[trigger] a[k] == b[k] by {
            let e = ex[t][k];
            assert(a[k] == range_at(segment, e.0 as int, e.1 as int));
            assert(b[k] == committed_range(m, e.0 as int, e.1 as int));
            assert(range_at(segment, e.0 as int, e.1 as int) =~= committed_range(
                m,
                e.0 as int,
                e.1 as int,
            ));
        }
        assert(a =~= b);
    }
    assert(rv =~= view_of_extents(ex, m));
}

/// A copy of one term's extent list.
fn copy_extents(v: &Vec<(usize, usize)>) -> (r: Vec<(usize, usize)>)
    ensures
        r@ == v@,
{
    let mut r: Vec<(usize, usize)> = Vec::new();
    let n = v.len();
    let mut i: usize = 0;
    while i < n
        invariant
            0 <= i <= n == v@.len(),
            r@ =~= v@.subrange(0, i as int),
        decreases n - i,
    {
        r.push(v[i]);
        proof {
            assert(r@ =~= v@.subrange(0, i + 1int));
        }
        i = i + 1;
    }
    proof {
        assert(v@.subrange(0, n as int) =~= v@);
    }
    r
}

/// A write is visible to every read that follows in the same process: after
/// `write(term, data)` the term's buffer list has grown by exactly `data`,
/// at the index matching the write's position, every earlier buffer of the
/// term unchanged, and every other term reads as before.
pub proof fn lemma_write_then_read(v: Map<Seq<u8>, Seq<Seq<u8>>>, t: Seq<u8>, d: Seq<u8>)
    ensures
        view_insert(v, t, d).dom().contains(t),
        view_insert(v, t, d)[t].len() == (if v.dom().contains(t) {
            v[t].len() + 1
        } else {
            1
        }),
        view_insert(v, t, d)[t].last() == d,
        forall|k: int|
            v.dom().contains(t) && 0 <= k < v[t].len() ==> view_insert(v, t, d)[t][k]
                == #[trigger] v[t][k],
        forall|t2: Seq<u8>|
            t2 != t ==> (#[trigger] view_insert(v, t, d).dom().contains(t2) == v.dom().contains(
                t2,
            )) && (v.dom().contains(t2) ==> view_insert(v, t, d)[t2] == v[t2]),
{
}

/// The same extents read the same against two cache states that agree on
/// every committed byte.
pub proof fn lemma_view_of_extents_eq(
    ex: Map<Seq<u8>, Seq<(usize, usize)>>,
    m0: CacheModel,
    m1: CacheModel,
)
    requires
        forall|addr: int| committed_byte(m1, addr) == committed_byte(m0, addr),
    ensures
        view_of_extents(ex, m1) == view_of_extents(ex, m0),
{
    let lhs = view_of_extents(ex, m1);
    let rhs = view_of_extents(ex, m0);
    assert forall|t: Seq<u8>| lhs.dom().contains(t) implies lhs[t] == rhs[t] by {
        let a = lhs[t];
        let b = rhs[t];
        assert forall|k: int| 0 <= k < a.len() implies #[trigger] a[k] == b[k] by {
            let e = ex[t][k];
            assert(a[k] == committed_range(m1, e.0 as int, e.1 as int));
            assert(b[k] == committed_range(m0, e.0 as int, e.1 as int));
            assert(committed_range(m1, e.0 as int, e.1 as int) =~= committed_range(
                m0,
                e.0 as int,
                e.1 as int,
            ));
        }
        assert(a =~= b);
    }
    assert(lhs =~= rhs);
}

/// After an append and its record, the store's view is the old view with the
/// payload appended under its term.
proof fn lemma_view_insert(
    pre: SegmentStore,
    mid: SegmentStore,
    post: SegmentStore,
    term: Seq<u8>,
    data: Seq<u8>,
    o: usize,
    s: usize,
)
    requires
        pre.inv(),
        s == data.len(),
        cursor_end(pre.cache()) <= o,
        mid.extents() == pre.extents(),
        forall|addr: int|
            addr < o ==> committed_byte(mid.cache(), addr) == committed_byte(pre.cache(), addr),
        committed_range(mid.cache(), o as int, s as int) == data,
        post.cache() == mid.cache(),
        mid.cache().page_size == pre.cache().page_size,
        post.extents() == extents_insert(pre.extents(), term, (o, s)),
    ensures
        post.view() == view_insert(pre.view(), term, data),
{
    let lhs = post.view();
    let rhs = view_insert(pre.view(), term, data);
    let ex0 = pre.extents();
    let m0 = pre.cache();
    let m1 = post.cache();
    let psi = m0.page_size;
    assert(lhs.dom() =~= rhs.dom());
    assert forall|t: Seq<u8>| lhs.dom().contains(t) implies lhs[t] == rhs[t] by {
        pre.lemma_extents_ok();
        if t == term {
            let a = lhs[t];
            let old_exts = if ex0.dom().contains(t) {
                ex0[t]
            } else {
                Seq::<(usize, usize)>::empty()
            };
            assert(a.len() == old_exts.len() + 1);
            assert forall|k: int| 0 <= k < a.len() implies #[trigger] a[k] == (rhs[t])[k] by {
                if k < old_exts.len() {
                    let e = old_exts[k];
                    assert(extent_ok(e, psi, cursor_end(m0)));
                    assert(a[k] == committed_range(m1, e.0 as int, e.1 as int));
                    assert(committed_range(m1, e.0 as int, e.1 as int) =~= committed_range(
                        m0,
                        e.0 as int,
                        e.1 as int,
                    )) by {
                        assert(forall|q: int|
                            0 <= q < e.1 ==> e.0 + q < o && #[trigger] committed_byte(m1, e.0 + q)
                                == committed_byte(m0, e.0 + q));
                    }
                    assert((rhs[t])[k] == pre.view()[t][k]);
                } else {
                    assert(a[k] == committed_range(m1, o as int, s as int));
                }
            }
            assert(a =~= rhs[t]);
        } else {
            let a = lhs[t];
            let b = rhs[t];
            assert(post.extents()[t] == ex0[t]);
            assert forall|k: int| 0 <= k < a.len() implies #[trigger] a[k] == b[k] by {
                let e = ex0[t][k];
                assert(extent_ok(e, psi, cursor_end(m0)));
                assert(a[k] == committed_range(m1, e.0 as int, e.1 as int));
                assert(committed_range(m1, e.0 as int, e.1 as int) =~= committed_range(
                    m0,
                    e.0 as int,
                    e.1 as int,
                )) by {
                    assert(forall|q: int|
                        0 <= q < e.1 ==> e.0 + q < o && #[trigger] committed_byte(m1, e.0 + q)
                            == committed_byte(m0, e.0 + q));
                }
            }
            assert(a =~= b);
        }
    }
    assert(lhs =~= rhs);
}

/// `(q + 1) * d` against `usize::MAX`: both directions of the divisibility
/// test the constructor runs.
proof fn lemma_div_mul_bound(d: int, a: int)
    requires
        d >= 1,
        a >= 1,
    ensures
        a <= usize::MAX as int / d ==> a * d <= usize::MAX as int,
        a > usize::MAX as int / d ==> a * d > usize::MAX as int,
{
    let m = usize::MAX as int;
    vstd::arithmetic::div_mod::lemma_fundamental_div_mod(m, d);
    if a <= m / d {
        vstd::arithmetic::mul::lemma_mul_inequality(a, m / d, d);
        vstd::arithmetic::mul::lemma_mul_is_commutative(m / d, d);
    } else {
        vstd::arithmetic::mul::lemma_mul_inequality(m / d + 1, a, d);
        vstd::arithmetic::mul::lemma_mul_is_distributive_add_other_way(d, m / d, 1);
        vstd::arithmetic::mul::lemma_mul_is_commutative(m / d, d);
    }
}

/// A committed-equals-file cache reads every extent straight off the file.
pub proof fn lemma_view_from_file(ex: Map<Seq<u8>, Seq<(usize, usize)>>, m: CacheModel)
    requires
        forall|addr: int| committed_byte(m, addr) == byte_at(m.file, addr),
    ensures
        view_of_extents(ex, m) == Map::new(
            |t: Seq<u8>| ex.dom().contains(t),
            |t: Seq<u8>|
                ex[t].map_values(|e: (usize, usize)| range_at(m.file, e.0 as int, e.1 as int)),
        ),
{
    let lhs = view_of_extents(ex, m);
    let rhs = Map::new(
        |t: Seq<u8>| ex.dom().contains(t),
        |t: Seq<u8>|
            ex[t].map_values(|e: (usize, usize)| range_at(m.file, e.0 as int, e.1 as int)),
    );
    assert forall|t: Seq<u8>| lhs.dom().contains(t) implies lhs[t] == rhs[t] by {
        let a = lhs[t];
        let b = rhs[t];
        assert forall|k: int| 0 <= k < a.len() implies #[trigger] a[k] == b[k] by {
            let e = ex[t][k];
            assert(a[k] == committed_range(m, e.0 as int, e.1 as int));
            assert(b[k] == range_at(m.file, e.0 as int, e.1 as int));
            assert(committed_range(m, e.0 as int, e.1 as int) =~= range_at(
                m.file,
                e.0 as int,
                e.1 as int,
            ));
        }
        assert(a =~= b);
    }
    assert(lhs =~= rhs);
}

/// Appends the extent `(o, s)` to `term`'s entry, starting the entry when
/// the term is new.
fn push_extent(
    term_offsets: &mut Vec<(Vec<u8>, Vec<(usize, usize)>)>,
    term: Vec<u8>,
    o: usize,
    s: usize,
)
    requires
        distinct_keys(old(term_offsets)@),
    ensures
        distinct_keys(final(term_offsets)@),
        assoc_map(final(term_offsets)@) == extents_insert(
            assoc_map(old(term_offsets)@),
            term@,
            (o, s),
        ),
        ({
            let pre = old(term_offsets)@;
            let post = final(term_offsets)@;
            &&& post.len() == pre.len() || post.len() == pre.len() + 1
            &&& (post.len() == pre.len() + 1 ==> (forall|i: int|
                0 <= i < pre.len() ==> #[trigger] post[i] == pre[i]) && post.last().0@ == term@
                && post.last().1@ == seq![(o, s)])
            &&& (post.len() == pre.len() ==> exists|idx: int|
                0 <= idx < pre.len() && (#[trigger] post[idx]).0@ == term@ && post[idx].1@
                    == pre[idx].1@.push((o, s)) && (forall|j2: int|
                    0 <= j2 < pre.len() && j2 != idx ==> post[j2] == pre[j2]) && pre[idx].0@
                    == term@)
        }),
{
    let n = term_offsets.len();
    let mut i: usize = 0;
    while i < n
        invariant
            0 <= i <= n == term_offsets@.len(),
            term_offsets@ == old(term_offsets)@,
            forall|j: int| 0 <= j < i ==> (#[trigger] term_offsets@[j]).0@ != term@,
        decreases n - i,
    {
        if bytes_eq(term_offsets[i].0.as_slice(), term.as_slice()) {
            let ghost pre = term_offsets@;
            let entry = entry_mut(term_offsets, i);
            entry.1.push((o, s));
            proof {
                lemma_assoc_map_index(pre, i as int);
                lemma_assoc_map_update(pre, i as int, term_offsets@[i as int]);
                assert(assoc_map(term_offsets@) =~= extents_insert(assoc_map(pre), term@, (o, s)));
            }
            return ;
        }
        i = i + 1;
    }
    let ghost pre = term_offsets@;
    let mut ext: Vec<(usize, usize)> = Vec::new();
    ext.push((o, s));
    proof {
        assert(ext@ =~= seq![(o, s)]);
    }
    term_offsets.push((term, ext));
    proof {
        lemma_assoc_map_domain(pre);
        lemma_assoc_map_push(pre, term_offsets@.last());
        assert(!assoc_map(pre).dom().contains(term_offsets@.last().0@));
        assert(assoc_map(term_offsets@) =~= extents_insert(
            assoc_map(pre),
            term_offsets@.last().0@,
            (o, s),
        ));
    }
}

/// A mutable borrow of one term's entry.
fn entry_mut(v: &mut Vec<(Vec<u8>, Vec<(usize, usize)>)>, i: usize) -> (r: &mut (
    Vec<u8>,
    Vec<(usize, usize)>,
))
    requires
        i < old(v)@.len(),
    ensures
        *r == old(v)@[i as int],
        final(v)@ == old(v)@.update(i as int, *final(r)),
{
    &mut v[i]
}

} // verus!
