//! The paged buffer cache: fixed-size pages over the segment file, a bounded
//! resident set with least-recently-used eviction, dirty-page flushing, and
//! byte-extent reads and appends that never cross a page boundary.

use vstd::prelude::*;

use crate::seg_file::{byte_at, range_at, SegmentFile};
use crate::StoreError;

verus! {

/// The mathematical content of one resident page.
pub struct PageModel {
    pub bytes: Seq<u8>,
    pub dirty: bool,
    pub used: int,
    pub watermark: int,
}

/// A page buffer is exactly one page long, its watermark lies inside it, and
/// everything at or past the watermark is still zero.
pub open spec fn page_wf(p: PageModel, page_size: int) -> bool {
    &&& p.bytes.len() == page_size
    &&& 0 <= p.watermark <= page_size
    &&& forall|i: int| p.watermark <= i < page_size ==> p.bytes[i] == 0
    &&& 0 <= p.used <= usize::MAX
}

/// One slot of the cache: a page of the segment file held in memory.
pub struct Page {
    page_id: usize,
    data: Vec<u8>,
    is_dirty: bool,
    last_used: usize,
    last_written_offset: usize,
}

impl View for Page {
    type V = PageModel;

    closed spec fn view(&self) -> PageModel {
        PageModel {
            bytes: self.data@,
            dirty: self.is_dirty,
            used: self.last_used as int,
            watermark: self.last_written_offset as int,
        }
    }
}

impl Page {
    pub closed spec fn id(self) -> int {
        self.page_id as int
    }

    /// A fresh page: zeroed buffer, dirty, empty watermark.
    pub fn new(page_id: usize, last_used: usize, page_size: usize) -> (r: Page)
        ensures
            r.id() == page_id,
            r@ == (PageModel { bytes: Seq::new(page_size as nat, |i: int| 0u8), dirty: true, used: last_used as int, watermark: 0 }),
            page_wf(r@, page_size as int),
    {
        let data = vec![0u8; page_size];
        proof {
            assert(data@ =~= Seq::new(page_size as nat, |i: int| 0u8));
        }
        Page { page_id, data, is_dirty: true, last_used, last_written_offset: 0 }
    }

    /// A page rebuilt from a buffer loaded off the segment file; clean.
    pub fn open(page_id: usize, buff: &[u8], last_used: usize, last_written_offset: usize) -> (r:
        Page)
        requires
            last_written_offset <= buff@.len(),
            forall|i: int| last_written_offset <= i < buff@.len() ==> buff@[i] == 0,
        ensures
            r.id() == page_id,
            r@ == (PageModel { bytes: buff@, dirty: false, used: last_used as int, watermark: last_written_offset as int }),
            page_wf(r@, buff@.len() as int),
    {
        Page {
            page_id,
            data: vstd::slice::slice_to_vec(buff),
            is_dirty: false,
            last_used,
            last_written_offset,
        }
    }

    /// Copies `data` in at the watermark and advances it; the caller must
    /// have checked that the bytes fit. Returns the in-page offset where the
    /// copy begins.
    pub fn write(&mut self, data: &[u8]) -> (offset: usize)
        requires
            page_wf(old(self)@, old(self)@.bytes.len() as int),
            old(self)@.watermark + data@.len() <= old(self)@.bytes.len(),
        ensures
            offset == old(self)@.watermark,
            final(self)@.bytes == old(self)@.bytes.map(
                |i: int, b: u8|
                    if old(self)@.watermark <= i < old(self)@.watermark + data@.len() {
                        data@[i - old(self)@.watermark]
                    } else {
                        b
                    },
            ),
            final(self)@.dirty,
            final(self)@.watermark == old(self)@.watermark + data@.len(),
            final(self)@.used == old(self)@.used,
            final(self).id() == old(self).id(),
            page_wf(final(self)@, old(self)@.bytes.len() as int),
    {
        let offset = self.last_written_offset;
        let n = data.len();
        let page_len = self.data.len();
        let mut i: usize = 0;
        while i < n
            invariant
                0 <= i <= n == data@.len(),
                offset + n <= page_len == self@.bytes.len(),
                self@.bytes.len() == old(self)@.bytes.len(),
                self.last_written_offset == offset == old(self)@.watermark,
                self.page_id == old(self).page_id,
                self.is_dirty == old(self).is_dirty,
                self.last_used == old(self).last_used,
                forall|j: int|
                    0 <= j < self@.bytes.len() ==> #[trigger] self@.bytes[j] == if offset <= j
                        < offset + i {
                        data@[j - offset]
                    } else {
                        old(self)@.bytes[j]
                    },
            decreases n - i,
        {
            crate::seg_file::set_byte(&mut self.data, offset + i, data[i]);
            i = i + 1;
        }
        self.last_written_offset = offset + n;
        self.is_dirty = true;
        proof {
            assert(self@.bytes =~= old(self)@.bytes.map(
                |i: int, b: u8|
                    if old(self)@.watermark <= i < old(self)@.watermark + data@.len() {
                        data@[i - old(self)@.watermark]
                    } else {
                        b
                    },
            ));
        }
        offset
    }

    /// A view of `size` bytes starting at the in-page offset `offset`.
    pub fn read(&self, offset: usize, size: usize) -> (r: &[u8])
        requires
            offset + size <= self@.bytes.len(),
        ensures
            r@ == self@.bytes.subrange(offset as int, offset as int + size as int),
    {
        let page_len = self.data.len();
        assert(offset + size <= page_len);
        &self.data[offset..offset + size]
    }

    /// Moves the watermark to `w` and zeroes everything from `w` on, so the
    /// page again ends in unused zero bytes. Used when a page resumes the
    /// role of the append tail.
    fn reset_watermark(&mut self, w: usize)
        requires
            page_wf(old(self)@, old(self)@.bytes.len() as int),
            w <= old(self)@.bytes.len(),
        ensures
            final(self)@.bytes == old(self)@.bytes.map(
                |i: int, b: u8| if w <= i { 0u8 } else { b },
            ),
            final(self)@.watermark == w,
            final(self)@.dirty == old(self)@.dirty,
            final(self)@.used == old(self)@.used,
            final(self).id() == old(self).id(),
            page_wf(final(self)@, old(self)@.bytes.len() as int),
    {
        let n = self.data.len();
        let mut i: usize = w;
        while i < n
            invariant
                w <= i <= n == self@.bytes.len(),
                self@.bytes.len() == old(self)@.bytes.len(),
                self.page_id == old(self).page_id,
                self.is_dirty == old(self).is_dirty,
                self.last_used == old(self).last_used,
                self.last_written_offset == old(self).last_written_offset,
                forall|j: int|
                    0 <= j < self@.bytes.len() ==> #[trigger] self@.bytes[j] == if w as int <= j
                        < i {
                        0u8
                    } else {
                        old(self)@.bytes[j]
                    },
            decreases n - i,
        {
            crate::seg_file::set_byte(&mut self.data, i, 0);
            i = i + 1;
        }
        self.last_written_offset = w;
        proof {
            assert(self@.bytes =~= old(self)@.bytes.map(
                |i: int, b: u8| if w <= i { 0u8 } else { b },
            ));
        }
    }

    /// Whether the page holds changes the segment file has not seen.
    pub fn dirty(&self) -> (r: bool)
        ensures
            r == self@.dirty,
    {
        self.is_dirty
    }

    /// The first unused byte offset within the page.
    pub fn watermark(&self) -> (r: usize)
        ensures
            r == self@.watermark,
    {
        self.last_written_offset
    }
}

/// The resident set as a map from page id to page content.
pub open spec fn pages_map(s: Seq<Page>) -> Map<int, PageModel>
    decreases s.len(),
{
    if s.len() == 0 {
        Map::empty()
    } else {
        pages_map(s.drop_last()).insert(s.last().id(), s.last()@)
    }
}

/// No two resident slots hold the same page.
pub open spec fn distinct_ids(s: Seq<Page>) -> bool {
    forall|i: int, j: int| 0 <= i < j < s.len() ==> s[i].id() != s[j].id()
}

pub proof fn lemma_pages_map_domain(s: Seq<Page>)
    ensures
        forall|id: int|
            pages_map(s).dom().contains(id) <==> exists|i: int|
                0 <= i < s.len() && #[trigger] s[i].id() == id,
        pages_map(s).dom().finite(),
    decreases s.len(),
{
    if s.len() > 0 {
        lemma_pages_map_domain(s.drop_last());
        assert forall|id: int| pages_map(s).dom().contains(id) implies exists|i: int|
            0 <= i < s.len() && #[trigger] s[i].id() == id by {
            if id == s.last().id() {
                assert(s[s.len() - 1].id() == id);
            } else {
                let i = choose|i: int| 0 <= i < s.drop_last().len() && #[trigger] s.drop_last()[i].id() == id;
                assert(s[i].id() == id);
            }
        }
        assert forall|id: int|
            (exists|i: int| 0 <= i < s.len() && #[trigger] s[i].id() == id) implies pages_map(
            s,
        ).dom().contains(id) by {
            let i = choose|i: int| 0 <= i < s.len() && #[trigger] s[i].id() == id;
            if i < s.len() - 1 {
                assert(s.drop_last()[i].id() == id);
            }
        }
    }
}

pub proof fn lemma_pages_map_index(s: Seq<Page>, i: int)
    requires
        distinct_ids(s),
        0 <= i < s.len(),
    ensures
        pages_map(s).dom().contains(s[i].id()),
        pages_map(s)[s[i].id()] == s[i]@,
    decreases s.len(),
{
    if i == s.len() - 1 {
    } else {
        assert(distinct_ids(s.drop_last()));
        lemma_pages_map_index(s.drop_last(), i);
        assert(s.drop_last()[i] == s[i]);
        assert(s[i].id() != s.last().id());
    }
}

pub proof fn lemma_pages_map_len(s: Seq<Page>)
    requires
        distinct_ids(s),
    ensures
        pages_map(s).dom().finite(),
        pages_map(s).dom().len() == s.len(),
    decreases s.len(),
{
    if s.len() == 0 {
        assert(pages_map(s).dom() =~= Set::<int>::empty());
    } else {
        assert(distinct_ids(s.drop_last()));
        lemma_pages_map_len(s.drop_last());
        lemma_pages_map_domain(s.drop_last());
        assert(!pages_map(s.drop_last()).dom().contains(s.last().id()));
        vstd::set::axiom_set_insert_len(pages_map(s.drop_last()).dom(), s.last().id());
    }
}

pub proof fn lemma_pages_map_push(s: Seq<Page>, p: Page)
    ensures
        pages_map(s.push(p)) == pages_map(s).insert(p.id(), p@),
{
    assert(s.push(p).drop_last() =~= s);
    assert(s.push(p).last() == p);
}

pub proof fn lemma_pages_map_update(s: Seq<Page>, k: int, p: Page)
    requires
        distinct_ids(s),
        0 <= k < s.len(),
        p.id() == s[k].id(),
    ensures
        pages_map(s.update(k, p)) =~= pages_map(s).insert(p.id(), p@),
    decreases s.len(),
{
    let t = s.update(k, p);
    if k == s.len() - 1 {
        assert(t.drop_last() =~= s.drop_last());
        assert(t.last() == p);
    } else {
        assert(distinct_ids(s.drop_last()));
        assert(t.drop_last() =~= s.drop_last().update(k, p));
        lemma_pages_map_update(s.drop_last(), k, p);
        assert(t.last() == s.last());
        assert(s[k].id() != s.last().id());
    }
}

/// Where an address inside the page `id` falls: in that page, at that offset.
pub proof fn lemma_addr_in_page(ps: int, id: int, addr: int)
    requires
        ps >= 1,
        id >= 0,
        id * ps <= addr < (id + 1) * ps,
    ensures
        addr / ps == id,
        addr % ps == addr - id * ps,
{
    vstd::arithmetic::mul::lemma_mul_is_distributive_add_other_way(ps, id, 1);
    vstd::arithmetic::div_mod::lemma_fundamental_div_mod_converse_div(addr, ps, id, addr - id * ps);
    vstd::arithmetic::div_mod::lemma_fundamental_div_mod_converse_mod(addr, ps, id, addr - id * ps);
}

/// The addresses whose page is `id` are exactly `[id * ps, (id + 1) * ps)`.
pub proof fn lemma_page_addr_range(ps: int, id: int, addr: int)
    requires
        ps >= 1,
        id >= 0,
        addr / ps == id,
    ensures
        addr >= 0,
        id * ps <= addr < (id + 1) * ps,
        addr % ps == addr - id * ps,
        0 <= addr % ps < ps,
{
    vstd::arithmetic::div_mod::lemma_fundamental_div_mod(addr, ps);
    vstd::arithmetic::mul::lemma_mul_nonnegative(ps, id);
    vstd::arithmetic::mul::lemma_mul_is_distributive_add_other_way(ps, id, 1);
    vstd::arithmetic::mul::lemma_mul_is_commutative(ps, id);
}

pub proof fn lemma_pages_map_remove(s: Seq<Page>, k: int)
    requires
        distinct_ids(s),
        0 <= k < s.len(),
    ensures
        pages_map(s.remove(k)) =~= pages_map(s).remove(s[k].id()),
    decreases s.len(),
{
    let t = s.remove(k);
    if k == s.len() - 1 {
        assert(t =~= s.drop_last());
        lemma_pages_map_domain(s.drop_last());
        assert(!pages_map(s.drop_last()).dom().contains(s.last().id()));
        assert(pages_map(s.drop_last()).remove(s.last().id()) =~= pages_map(s.drop_last()));
        assert(pages_map(s).remove(s[k].id()) =~= pages_map(s.drop_last()));
    } else {
        assert(distinct_ids(s.drop_last()));
        assert(t.drop_last() =~= s.drop_last().remove(k));
        lemma_pages_map_remove(s.drop_last(), k);
        assert(t.last() == s.last());
        assert(s[k].id() != s.last().id());
    }
}

/// The mathematical state of the page cache: the resident pages, the segment
/// file image, and the append cursor.
pub struct CacheModel {
    pub pages: Map<int, PageModel>,
    pub file: Seq<u8>,
    pub page_size: int,
    pub cap: int,
    pub next_page_id: int,
    pub last_offset: int,
    pub last_size: int,
}

/// The shape every reachable cache state has: at most `cap` resident pages,
/// each well formed and below `next_page_id`, and a last extent that lies
/// inside the tail page.
pub open spec fn cache_wf(m: CacheModel) -> bool {
    &&& 1 <= m.page_size <= usize::MAX
    &&& 1 <= m.cap <= usize::MAX
    &&& 0 <= m.next_page_id <= usize::MAX
    &&& m.next_page_id * m.page_size <= usize::MAX
    &&& m.pages.dom().finite()
    &&& m.pages.dom().len() <= m.cap
    &&& forall|id: int|
        #[trigger] m.pages.dom().contains(id) ==> 0 <= id < m.next_page_id && page_wf(
            m.pages[id],
            m.page_size,
        )
    &&& 0 <= m.last_offset <= usize::MAX
    &&& 0 <= m.last_size <= usize::MAX
    &&& (m.next_page_id == 0 ==> m.last_offset == 0 && m.last_size == 0)
    &&& (m.next_page_id > 0 ==> m.last_offset / m.page_size == m.next_page_id - 1
        && m.last_offset % m.page_size + m.last_size <= m.page_size && m.last_offset + m.last_size
        <= usize::MAX)
}

/// The byte the store has committed at `addr`: the resident page's byte when
/// the containing page is cached, the segment file's byte otherwise.
pub open spec fn committed_byte(m: CacheModel, addr: int) -> u8 {
    if m.pages.dom().contains(addr / m.page_size) {
        m.pages[addr / m.page_size].bytes[addr % m.page_size]
    } else {
        byte_at(m.file, addr)
    }
}

/// The committed bytes of the extent `(offset, size)`.
pub open spec fn committed_range(m: CacheModel, offset: int, size: int) -> Seq<u8> {
    Seq::new(
        if size >= 0 {
            size as nat
        } else {
            0
        },
        |i: int| committed_byte(m, offset + i),
    )
}

/// The first file offset past the most recently committed extent.
pub open spec fn cursor_end(m: CacheModel) -> int {
    m.last_offset + m.last_size
}

/// The in-page offset at which the next append into the tail page begins.
pub open spec fn tail_watermark(m: CacheModel) -> int {
    m.last_offset % m.page_size + m.last_size
}

/// Where an append of `len` bytes lands: at the cursor when the tail page
/// still has room, else at the start of the next fresh page.
pub open spec fn append_pos(m: CacheModel, len: int) -> int {
    if m.next_page_id == 0 {
        0
    } else if tail_watermark(m) + len <= m.page_size {
        cursor_end(m)
    } else {
        m.next_page_id * m.page_size
    }
}

/// Room in the address space for one more page; what every append needs.
pub open spec fn can_append(m: CacheModel) -> bool {
    (m.next_page_id + 1) * m.page_size <= usize::MAX
}

/// Owns the segment file image and a bounded set of resident pages; services
/// extent reads and appends and flushes dirty pages back to the file.
pub struct PageCacheManager {
    pages: Vec<Page>,
    cap: usize,
    page_size: usize,
    usage_counter: usize,
    file: SegmentFile,
    next_page_id: usize,
    last_page_offset_and_size: (usize, usize),
}

impl View for PageCacheManager {
    type V = CacheModel;

    closed spec fn view(&self) -> CacheModel {
        CacheModel {
            pages: pages_map(self.pages@),
            file: self.file@,
            page_size: self.page_size as int,
            cap: self.cap as int,
            next_page_id: self.next_page_id as int,
            last_offset: self.last_page_offset_and_size.0 as int,
            last_size: self.last_page_offset_and_size.1 as int,
        }
    }
}

impl PageCacheManager {
    pub closed spec fn inv(self) -> bool {
        &&& distinct_ids(self.pages@)
        &&& self.pages@.len() <= self.cap
        &&& self.page_size >= 1
        &&& self.cap >= 1
        &&& forall|i: int|
            0 <= i < self.pages@.len() ==> 0 <= (#[trigger] self.pages@[i]).id()
                < self.next_page_id
        &&& forall|i: int|
            0 <= i < self.pages@.len() ==> page_wf(
                (#[trigger] self.pages@[i])@,
                self.page_size as int,
            )
        &&& self.next_page_id as int * self.page_size as int <= usize::MAX as int
        &&& (self.next_page_id == 0 ==> self.last_page_offset_and_size.0 == 0
            && self.last_page_offset_and_size.1 == 0)
        &&& (self.next_page_id > 0 ==> self.last_page_offset_and_size.0 as int
            / self.page_size as int == self.next_page_id as int - 1
            && self.last_page_offset_and_size.0 as int % self.page_size as int
            + self.last_page_offset_and_size.1 as int <= self.page_size as int
            && self.last_page_offset_and_size.0 as int + self.last_page_offset_and_size.1 as int
            <= usize::MAX as int)
        &&& forall|i: int, k: int|
            0 <= i < self.pages@.len() && !self.pages@[i]@.dirty && 0 <= k < self.page_size
                ==> #[trigger] self.pages@[i]@.bytes[k] == byte_at(
                self.file@,
                self.pages@[i].id() * self.page_size as int + k,
            )
    }

    /// The closed invariant implies the public shape of the model.
    pub proof fn lemma_inv_cache_wf(self)
        requires
            self.inv(),
        ensures
            cache_wf(self@),
    {
        lemma_pages_map_len(self.pages@);
        lemma_pages_map_domain(self.pages@);
        assert forall|id: int| #[trigger] self@.pages.dom().contains(id) implies 0 <= id
            < self@.next_page_id && page_wf(self@.pages[id], self@.page_size) by {
            let i = choose|i: int| 0 <= i < self.pages@.len() && #[trigger] self.pages@[i].id() == id;
            lemma_pages_map_index(self.pages@, i);
        }
    }

    /// A manager over the given file image. `last_extent` is the most
    /// recently committed extent recovered from the log, `(0, 0)` for a
    /// store with no history; appends resume just past it.
    pub fn new(bytes: Vec<u8>, page_size: usize, cap: usize, last_page_offset_and_size: (usize, usize)) -> (r: PageCacheManager)
        requires
            page_size >= 1,
            cap >= 1,
            last_page_offset_and_size == (0usize, 0usize) || (
                last_page_offset_and_size.0 as int % page_size as int
                + last_page_offset_and_size.1 as int <= page_size as int
                && last_page_offset_and_size.0 as int + last_page_offset_and_size.1 as int
                <= usize::MAX as int && (last_page_offset_and_size.0 as int / page_size as int + 1)
                * page_size as int <= usize::MAX as int),
        ensures
            r.inv(),
            r@ == (CacheModel {
                pages: Map::<int, PageModel>::empty(),
                file: bytes@,
                page_size: page_size as int,
                cap: cap as int,
                next_page_id: if last_page_offset_and_size == (0usize, 0usize) {
                    0
                } else {
                    last_page_offset_and_size.0 as int / page_size as int + 1
                },
                last_offset: last_page_offset_and_size.0 as int,
                last_size: last_page_offset_and_size.1 as int,
            }),
    {
        let (lo, ls) = last_page_offset_and_size;
        let next_page_id: usize = if lo == 0 && ls == 0 {
            0
        } else {
            proof {
                vstd::arithmetic::mul::lemma_mul_ordering(
                    lo as int / page_size as int + 1,
                    page_size as int,
                );
            }
            lo / page_size + 1
        };
        let r = PageCacheManager {
            pages: Vec::new(),
            cap,
            page_size,
            usage_counter: 0,
            file: SegmentFile::new(bytes),
            next_page_id,
            last_page_offset_and_size,
        };
        proof {
            assert(r.pages@.len() == 0);
            if !(lo == 0 && ls == 0) {
                vstd::arithmetic::div_mod::lemma_fundamental_div_mod(lo as int, page_size as int);
                vstd::arithmetic::mul::lemma_mul_is_distributive_add_other_way(
                    page_size as int,
                    lo as int / page_size as int,
                    1,
                );
                vstd::arithmetic::mul::lemma_mul_is_commutative(
                    page_size as int,
                    lo as int / page_size as int,
                );
            }
        }
        r
    }

    /// The slot index of the resident page `id`, when it is resident.
    fn find_idx(&self, id: usize) -> (r: Option<usize>)
        requires
            self.inv(),
        ensures
            match r {
                Some(i) => i < self.pages@.len() && self.pages@[i as int].id() == id
                    && self@.pages.dom().contains(id as int) && self@.pages[id as int]
                    == self.pages@[i as int]@,
                None => !self@.pages.dom().contains(id as int),
            },
    {
        let n = self.pages.len();
        let mut i: usize = 0;
        while i < n
            invariant
                0 <= i <= n == self.pages@.len(),
                forall|j: int| 0 <= j < i ==> (#[trigger] self.pages@[j]).id() != id,
            decreases n - i,
        {
            if self.pages[i].page_id == id {
                proof {
                    lemma_pages_map_index(self.pages@, i as int);
                }
                return Some(i);
            }
            i = i + 1;
        }
        proof {
            lemma_pages_map_domain(self.pages@);
        }
        None
    }

    /// Whether the page `id` is resident.
    pub fn is_resident(&self, id: usize) -> (r: bool)
        requires
            self.inv(),
        ensures
            r == self@.pages.dom().contains(id as int),
    {
        self.find_idx(id).is_some()
    }

    /// The number of resident pages never exceeds the capacity: it holds in
    /// every reachable cache state.
    pub proof fn lemma_resident_bounded(self)
        requires
            self.inv(),
        ensures
            self@.pages.dom().len() <= self@.cap,
    {
        lemma_pages_map_len(self.pages@);
    }

    /// How many pages are resident; never more than `cap`.
    pub fn resident_count(&self) -> (r: usize)
        requires
            self.inv(),
        ensures
            r == self@.pages.dom().len(),
            r <= self@.cap,
    {
        proof {
            lemma_pages_map_len(self.pages@);
        }
        self.pages.len()
    }

    /// Marks the page `id` dirty so the next flush writes it out; a page
    /// that is not resident is left alone.
    pub fn mark_dirty(&mut self, id: usize)
        requires
            old(self).inv(),
        ensures
            final(self).inv(),
            final(self)@ == (CacheModel {
                pages: if old(self)@.pages.dom().contains(id as int) {
                    old(self)@.pages.insert(
                        id as int,
                        PageModel { dirty: true, ..old(self)@.pages[id as int] },
                    )
                } else {
                    old(self)@.pages
                },
                ..old(self)@
            }),
            forall|addr: int|
                committed_byte(final(self)@, addr) == committed_byte(old(self)@, addr),
    {
        match self.find_idx(id) {
            Some(i) => {
                let ghost pre = self.pages@;
                let p = page_mut(&mut self.pages, i);
                p.is_dirty = true;
                proof {
                    lemma_pages_map_update(pre, i as int, self.pages@[i as int]);
                    assert(self@.pages =~= old(self)@.pages.insert(
                        id as int,
                        PageModel { dirty: true, ..old(self)@.pages[id as int] },
                    ));
                    assert forall|addr: int|
                        committed_byte(self@, addr) == committed_byte(old(self)@, addr) by {
                        let pid = addr / self@.page_size;
                        lemma_pages_map_domain(pre);
                        lemma_pages_map_domain(self.pages@);
                    }
                }
            },
            None => {
                proof {
                    assert(final(self)@ =~= old(self)@);
                }
            },
        }
    }

    /// Writes the page `id` back to the segment file when it is resident and
    /// dirty, full page at `id * page_size`, and clears its dirty flag; does
    /// nothing for an absent or clean page. No committed byte changes.
    pub fn flush(&mut self, id: usize)
        requires
            old(self).inv(),
        ensures
            final(self).inv(),
            final(self)@.pages == (if old(self)@.pages.dom().contains(id as int) {
                old(self)@.pages.insert(
                    id as int,
                    PageModel { dirty: false, ..old(self)@.pages[id as int] },
                )
            } else {
                old(self)@.pages
            }),
            final(self)@.page_size == old(self)@.page_size,
            final(self)@.cap == old(self)@.cap,
            final(self)@.next_page_id == old(self)@.next_page_id,
            final(self)@.last_offset == old(self)@.last_offset,
            final(self)@.last_size == old(self)@.last_size,
            forall|addr: int|
                committed_byte(final(self)@, addr) == committed_byte(old(self)@, addr),
            (old(self)@.pages.dom().contains(id as int) && old(self)@.pages[id as int].dirty)
                ==> forall|a: int|
                byte_at(final(self)@.file, a) == (if id as int * old(self)@.page_size <= a < (
                id as int + 1) * old(self)@.page_size {
                    old(self)@.pages[id as int].bytes[a - id as int * old(self)@.page_size]
                } else {
                    byte_at(old(self)@.file, a)
                }),
            !(old(self)@.pages.dom().contains(id as int) && old(self)@.pages[id as int].dirty)
                ==> final(self)@.file == old(self)@.file,
    {
        let idx = match self.find_idx(id) {
            Some(i) => i,
            None => {
                return ;
            },
        };
        let ghost ps = self.page_size as int;
        proof {
            lemma_pages_map_index(self.pages@, idx as int);
        }
        if !self.pages[idx].is_dirty {
            proof {
                assert(final(self)@.pages =~= old(self)@.pages.insert(
                    id as int,
                    PageModel { dirty: false, ..old(self)@.pages[id as int] },
                ));
            }
            return ;
        }
        proof {
            vstd::arithmetic::mul::lemma_mul_inequality(
                id as int + 1,
                self.next_page_id as int,
                ps,
            );
            vstd::arithmetic::mul::lemma_mul_is_distributive_add_other_way(ps, id as int, 1);
            vstd::arithmetic::mul::lemma_mul_ordering(id as int + 1, ps);
        }
        let off = id * self.page_size;
        let ghost pre_file = self.file@;
        self.file.write_range(off, self.pages[idx].data.as_slice());
        let ghost pre = self.pages@;
        let p = page_mut(&mut self.pages, idx);
        p.is_dirty = false;
        proof {
            let psz = old(self)@.page_size;
            lemma_pages_map_update(pre, idx as int, self.pages@[idx as int]);
            assert(self@.pages =~= old(self)@.pages.insert(
                id as int,
                PageModel { dirty: false, ..old(self)@.pages[id as int] },
            ));
            assert forall|a: int|
                byte_at(self@.file, a) == (if id as int * psz <= a < (id as int + 1) * psz {
                    old(self)@.pages[id as int].bytes[a - id as int * psz]
                } else {
                    byte_at(old(self)@.file, a)
                }) by {
                if id as int * psz <= a < (id as int + 1) * psz {
                    assert(byte_at(self@.file, a) == old(self)@.pages[id as int].bytes[a - id
                        as int * psz]);
                }
            }
            assert forall|addr: int|
                committed_byte(self@, addr) == committed_byte(old(self)@, addr) by {
                let pid = addr / psz;
                lemma_pages_map_domain(pre);
                lemma_pages_map_domain(self.pages@);
                if old(self)@.pages.dom().contains(pid) {
                    assert(self@.pages.dom().contains(pid));
                    assert(self@.pages[pid].bytes == old(self)@.pages[pid].bytes);
                } else {
                    assert(!self@.pages.dom().contains(pid));
                    if id as int * psz <= addr < (id as int + 1) * psz {
                        lemma_addr_in_page(psz, id as int, addr);
                        assert(false);
                    }
                }
            }
            assert forall|i: int, k: int|
                0 <= i < self.pages@.len() && !self.pages@[i]@.dirty && 0 <= k < self.page_size
                    implies #[trigger] self.pages@[i]@.bytes[k] == byte_at(
                self.file@,
                self.pages@[i].id() * self.page_size as int + k,
            ) by {
                let a = self.pages@[i].id() * psz + k;
                if i == idx as int {
                    assert(self.pages@[i].id() == id);
                    assert(id as int * psz <= a < (id as int + 1) * psz);
                } else {
                    assert(pre[i] == self.pages@[i]);
                    assert(self.pages@[i].id() != id) by {
                        assert(pre[idx as int].id() == id);
                    }
                    let id2 = self.pages@[i].id();
                    assert(id2 * psz <= a < (id2 + 1) * psz) by {
                        vstd::arithmetic::mul::lemma_mul_is_distributive_add_other_way(
                            psz,
                            id2,
                            1,
                        );
                    }
                    if id as int * psz <= a < (id as int + 1) * psz {
                        lemma_addr_in_page(psz, id as int, a);
                        lemma_addr_in_page(psz, id2, a);
                        assert(false);
                    }
                    assert(byte_at(self.file@, a) == byte_at(pre_file, a));
                }
            }
        }
    }

    /// When the resident set is full, drops the least-recently-used page,
    /// lowest page id on a tie, writing it out first when it is dirty. The
    /// committed bytes are unchanged: a dirty victim reaches the file before
    /// it leaves memory.
    pub fn evict(&mut self)
        requires
            old(self).inv(),
        ensures
            final(self).inv(),
            final(self)@.page_size == old(self)@.page_size,
            final(self)@.cap == old(self)@.cap,
            final(self)@.next_page_id == old(self)@.next_page_id,
            final(self)@.last_offset == old(self)@.last_offset,
            final(self)@.last_size == old(self)@.last_size,
            forall|addr: int|
                committed_byte(final(self)@, addr) == committed_byte(old(self)@, addr),
            final(self)@.pages.dom().len() == if old(self)@.pages.dom().len() >= old(self)@.cap {
                old(self)@.pages.dom().len() - 1
            } else {
                old(self)@.pages.dom().len() as int
            },
            old(self)@.pages.dom().len() < old(self)@.cap ==> final(self)@ == old(self)@,
            old(self)@.pages.dom().len() >= old(self)@.cap ==> exists|victim: int|
                {
                    &&& #[trigger] old(self)@.pages.dom().contains(victim)
                    &&& forall|pid: int|
                        old(self)@.pages.dom().contains(pid) && pid != victim ==> (
                        #[trigger] old(self)@.pages[pid].used > old(self)@.pages[victim].used || (
                        old(self)@.pages[pid].used == old(self)@.pages[victim].used && pid
                            > victim))
                    &&& final(self)@.pages == old(self)@.pages.remove(victim)
                    &&& (old(self)@.pages[victim].dirty ==> forall|k: int|
                        0 <= k < old(self)@.page_size ==> byte_at(
                            final(self)@.file,
                            victim * old(self)@.page_size + k,
                        ) == old(self)@.pages[victim].bytes[k])
                    &&& (!old(self)@.pages[victim].dirty ==> final(self)@.file == old(self)@.file)
                },
    {
        proof {
            lemma_pages_map_len(self.pages@);
        }
        let n = self.pages.len();
        if n < self.cap {
            return ;
        }
        let mut best: usize = 0;
        let mut i: usize = 1;
        while i < n
            invariant
                0 <= best < i <= n == self.pages@.len(),
                forall|j: int|
                    0 <= j < i && j != best ==> ((#[trigger] self.pages@[j])@.used
                        > self.pages@[best as int]@.used || (self.pages@[j]@.used
                        == self.pages@[best as int]@.used && self.pages@[j].id()
                        > self.pages@[best as int].id())),
            decreases n - i,
        {
            let better = self.pages[i].last_used < self.pages[best].last_used || (
            self.pages[i].last_used == self.pages[best].last_used && self.pages[i].page_id
                < self.pages[best].page_id);
            if better {
                best = i;
            }
            proof {
                if self.pages@[i as int].id() == self.pages@[best as int].id() && i as int
                    != best as int {
                    assert(false);
                }
            }
            i = i + 1;
        }
        let vid = self.pages[best].page_id;
        let ghost ps = self.page_size as int;
        let ghost victim_model = self.pages@[best as int]@;
        let ghost pre_file = self.file@;
        proof {
            lemma_pages_map_index(self.pages@, best as int);
            vstd::arithmetic::mul::lemma_mul_inequality(
                vid as int + 1,
                self.next_page_id as int,
                ps,
            );
            vstd::arithmetic::mul::lemma_mul_is_distributive_add_other_way(ps, vid as int, 1);
            vstd::arithmetic::mul::lemma_mul_ordering(vid as int + 1, ps);
        }
        if self.pages[best].is_dirty {
            let off = vid * self.page_size;
            self.file.write_range(off, self.pages[best].data.as_slice());
        }
        let ghost pre = self.pages@;
        let ghost mid_file = self.file@;
        let _removed = self.pages.remove(best);
        proof {
            lemma_pages_map_remove(pre, best as int);
            lemma_pages_map_domain(pre);
            lemma_pages_map_domain(self.pages@);
            assert forall|pid: int|
                old(self)@.pages.dom().contains(pid) && pid != vid as int implies (
            #[trigger] old(self)@.pages[pid].used > victim_model.used || (old(self)@.pages[pid].used
                == victim_model.used && pid > vid as int)) by {
                let j = choose|j: int| 0 <= j < pre.len() && #[trigger] pre[j].id() == pid;
                lemma_pages_map_index(pre, j);
                assert(j != best as int);
            }
            assert forall|addr: int|
                committed_byte(self@, addr) == committed_byte(old(self)@, addr) by {
                let pid = addr / ps;
                if pid == vid as int {
                    assert(old(self)@.pages.dom().contains(pid));
                    assert(!self@.pages.dom().contains(pid));
                    lemma_page_addr_range(ps, vid as int, addr);
                    assert(vid as int * ps <= addr < (vid as int + 1) * ps);
                    if victim_model.dirty {
                        assert(byte_at(self@.file, addr) == victim_model.bytes[addr - vid as int
                            * ps]);
                    } else {
                        assert(victim_model.bytes[addr % ps] == byte_at(
                            pre_file,
                            vid as int * ps + (addr % ps),
                        ));
                    }
                } else if old(self)@.pages.dom().contains(pid) {
                    assert(self@.pages.dom().contains(pid));
                    assert(self@.pages[pid] == old(self)@.pages[pid]);
                } else {
                    assert(!self@.pages.dom().contains(pid));
                    if victim_model.dirty {
                        if vid as int * ps <= addr < (vid as int + 1) * ps {
                            lemma_addr_in_page(ps, vid as int, addr);
                            assert(false);
                        }
                    }
                }
            }
            assert forall|i2: int, k: int|
                0 <= i2 < self.pages@.len() && !self.pages@[i2]@.dirty && 0 <= k < self.page_size
                    implies #[trigger] self.pages@[i2]@.bytes[k] == byte_at(
                self.file@,
                self.pages@[i2].id() * self.page_size as int + k,
            ) by {
                let j = if i2 < best as int {
                    i2
                } else {
                    i2 + 1
                };
                assert(self.pages@[i2] == pre[j]);
                let id2 = pre[j].id();
                let a = id2 * ps + k;
                assert(id2 * ps <= a < (id2 + 1) * ps) by {
                    vstd::arithmetic::mul::lemma_mul_is_distributive_add_other_way(ps, id2, 1);
                }
                if victim_model.dirty {
                    assert(id2 != vid as int);
                    if vid as int * ps <= a < (vid as int + 1) * ps {
                        lemma_addr_in_page(ps, vid as int, a);
                        lemma_addr_in_page(ps, id2, a);
                        assert(false);
                    }
                    assert(byte_at(self.file@, a) == byte_at(pre_file, a));
                }
            }
            lemma_pages_map_len(self.pages@);
            let victim = vid as int;
            assert(old(self)@.pages.dom().contains(victim) && final(self)@.pages == old(
                self,
            )@.pages.remove(victim) && (old(self)@.pages[victim].dirty ==> forall|k: int|
                0 <= k < old(self)@.page_size ==> byte_at(
                    final(self)@.file,
                    victim * old(self)@.page_size + k,
                ) == old(self)@.pages[victim].bytes[k]) && (!old(self)@.pages[victim].dirty
                ==> final(self)@.file == old(self)@.file)) by {
                assert(final(self)@.pages =~= old(self)@.pages.remove(victim));
                if old(self)@.pages[victim].dirty {
                    assert forall|k: int| 0 <= k < old(self)@.page_size implies byte_at(
                        final(self)@.file,
                        victim * old(self)@.page_size + k,
                    ) == old(self)@.pages[victim].bytes[k] by {
                        assert(victim * ps <= victim * ps + k < (victim + 1) * ps);
                    }
                }
            }
        }
    }

    /// Brings the page `id` into the resident set from the segment file,
    /// evicting first when the set is full. Returns the slot it occupies.
    fn load_page(&mut self, id: usize) -> (idx: usize)
        requires
            old(self).inv(),
            !old(self)@.pages.dom().contains(id as int),
            id < old(self).next_page_id,
        ensures
            final(self).inv(),
            final(self)@.page_size == old(self)@.page_size,
            final(self)@.cap == old(self)@.cap,
            final(self)@.next_page_id == old(self)@.next_page_id,
            final(self)@.last_offset == old(self)@.last_offset,
            final(self)@.last_size == old(self)@.last_size,
            forall|addr: int|
                committed_byte(final(self)@, addr) == committed_byte(old(self)@, addr),
            idx < final(self).pages@.len(),
            final(self).pages@[idx as int].id() == id,
            final(self)@.pages.dom().contains(id as int),
            final(self)@.pages[id as int] == final(self).pages@[idx as int]@,
            !final(self)@.pages[id as int].dirty,
            forall|k: int|
                0 <= k < old(self)@.page_size ==> final(self)@.pages[id as int].bytes[k]
                    == committed_byte(old(self)@, id as int * old(self)@.page_size + k),
            forall|pid: int|
                pid != id as int && #[trigger] final(self)@.pages.dom().contains(pid) ==> old(
                    self,
                )@.pages.dom().contains(pid) && final(self)@.pages[pid] == old(self)@.pages[pid],
    {
        let ghost ps = self.page_size as int;
        self.evict();
        proof {
            lemma_pages_map_len(old(self).pages@);
            lemma_pages_map_len(self.pages@);
            assert(self@.pages.dom().len() < self@.cap);
            vstd::arithmetic::mul::lemma_mul_inequality(
                id as int + 1,
                self.next_page_id as int,
                ps,
            );
            vstd::arithmetic::mul::lemma_mul_is_distributive_add_other_way(ps, id as int, 1);
            vstd::arithmetic::mul::lemma_mul_ordering(id as int + 1, ps);
        }
        if self.usage_counter < usize::MAX {
            self.usage_counter = self.usage_counter + 1;
        }
        let ghost mid = self@;
        let off = id * self.page_size;
        let buf = self.file.read_range(off, self.page_size);
        let w = find_last_written_offset(buf.as_slice());
        let page = Page::open(id, buf.as_slice(), self.usage_counter, w);
        let ghost pre = self.pages@;
        self.pages.push(page);
        let idx = self.pages.len() - 1;
        proof {
            lemma_pages_map_domain(pre);
            lemma_pages_map_push(pre, self.pages@[idx as int]);
            assert(distinct_ids(self.pages@)) by {
                assert(forall|j: int|
                    0 <= j < pre.len() ==> (#[trigger] pre[j]).id() != id as int);
                assert(forall|j: int|
                    0 <= j < self.pages@.len() - 1 ==> self.pages@[j] == pre[j]);
            }
            let loaded = self.pages@[idx as int]@;
            assert forall|k: int| 0 <= k < ps implies loaded.bytes[k] == committed_byte(
                mid,
                id as int * ps + k,
            ) by {
                let a = id as int * ps + k;
                lemma_addr_in_page(ps, id as int, a);
                assert(loaded.bytes[k] == byte_at(mid.file, a));
            }
            assert forall|addr: int|
                committed_byte(self@, addr) == committed_byte(mid, addr) by {
                let pid = addr / ps;
                if pid == id as int {
                    lemma_page_addr_range(ps, id as int, addr);
                    assert(committed_byte(self@, addr) == loaded.bytes[addr % ps]);
                } else {
                    lemma_pages_map_domain(self.pages@);
                }
            }
            assert forall|i2: int, k: int|
                0 <= i2 < self.pages@.len() && !self.pages@[i2]@.dirty && 0 <= k < self.page_size
                    implies #[trigger] self.pages@[i2]@.bytes[k] == byte_at(
                self.file@,
                self.pages@[i2].id() * self.page_size as int + k,
            ) by {
                if i2 < self.pages@.len() - 1 {
                    assert(self.pages@[i2] == pre[i2]);
                }
            }
        }
        idx
    }

    /// A snapshot of the page `id`, loading it from the segment file when it
    /// is not resident.
    pub fn get_page(&mut self, id: usize) -> (r: Page)
        requires
            old(self).inv(),
            id < old(self)@.next_page_id,
        ensures
            final(self).inv(),
            final(self)@.page_size == old(self)@.page_size,
            final(self)@.cap == old(self)@.cap,
            final(self)@.next_page_id == old(self)@.next_page_id,
            final(self)@.last_offset == old(self)@.last_offset,
            final(self)@.last_size == old(self)@.last_size,
            forall|addr: int|
                committed_byte(final(self)@, addr) == committed_byte(old(self)@, addr),
            final(self)@.pages.dom().contains(id as int),
            r@ == final(self)@.pages[id as int],
            r.id() == id,
            forall|k: int|
                0 <= k < old(self)@.page_size ==> r@.bytes[k] == committed_byte(
                    old(self)@,
                    id as int * old(self)@.page_size + k,
                ),
    {
        let idx = match self.find_idx(id) {
            Some(i) => i,
            None => self.load_page(id),
        };
        proof {
            lemma_pages_map_index(self.pages@, idx as int);
            if old(self)@.pages.dom().contains(id as int) {
                let ps = self.page_size as int;
                assert forall|k: int| 0 <= k < ps implies self.pages@[idx as int]@.bytes[k]
                    == committed_byte(old(self)@, id as int * ps + k) by {
                    let a = id as int * ps + k;
                    vstd::arithmetic::mul::lemma_mul_is_distributive_add_other_way(
                        ps,
                        id as int,
                        1,
                    );
                    lemma_addr_in_page(ps, id as int, a);
                }
            }
        }
        copy_page(&self.pages[idx])
    }

    /// The committed bytes at `[offset, offset + size)`; the extent must lie
    /// within one page. Loads the containing page when it is not resident.
    pub fn read(&mut self, offset: usize, size: usize) -> (r: Vec<u8>)
        requires
            old(self).inv(),
            offset as int % old(self)@.page_size + size as int <= old(self)@.page_size,
            offset + size <= usize::MAX,
        ensures
            final(self).inv(),
            final(self)@.page_size == old(self)@.page_size,
            final(self)@.cap == old(self)@.cap,
            final(self)@.next_page_id == old(self)@.next_page_id,
            final(self)@.last_offset == old(self)@.last_offset,
            final(self)@.last_size == old(self)@.last_size,
            forall|addr: int|
                committed_byte(final(self)@, addr) == committed_byte(old(self)@, addr),
            r@ == committed_range(old(self)@, offset as int, size as int),
    {
        let ps = self.page_size;
        let pid = offset / ps;
        let within = offset % ps;
        let ghost psi = ps as int;
        proof {
            lemma_page_addr_range(psi, pid as int, offset as int);
        }
        if pid < self.next_page_id {
            let idx = match self.find_idx(pid) {
                Some(i) => i,
                None => self.load_page(pid),
            };
            proof {
                lemma_pages_map_index(self.pages@, idx as int);
            }
            let slice = self.pages[idx].read(within, size);
            let r = vstd::slice::slice_to_vec(slice);
            proof {
                assert forall|j: int| 0 <= j < size implies r@[j] == committed_byte(
                    old(self)@,
                    offset + j,
                ) by {
                    let a = offset + j;
                    vstd::arithmetic::mul::lemma_mul_is_distributive_add_other_way(
                        psi,
                        pid as int,
                        1,
                    );
                    lemma_addr_in_page(psi, pid as int, a);
                    assert(r@[j] == self.pages@[idx as int]@.bytes[within + j]);
                    if old(self)@.pages.dom().contains(pid as int) {
                        assert(committed_byte(old(self)@, a) == old(self)@.pages[pid as int].bytes[a
                            % psi]);
                    } else {
                        assert(self@.pages[pid as int].bytes[a % psi] == committed_byte(
                            old(self)@,
                            pid as int * psi + (a % psi),
                        ));
                    }
                }
                assert(r@ =~= committed_range(old(self)@, offset as int, size as int));
            }
            r
        } else {
            let r = self.file.read_range(offset, size);
            proof {
                lemma_pages_map_domain(self.pages@);
                assert forall|j: int| 0 <= j < size implies r@[j] == committed_byte(
                    old(self)@,
                    offset + j,
                ) by {
                    let a = offset + j;
                    vstd::arithmetic::mul::lemma_mul_is_distributive_add_other_way(
                        psi,
                        pid as int,
                        1,
                    );
                    lemma_addr_in_page(psi, pid as int, a);
                    assert(!old(self)@.pages.dom().contains(a / psi));
                }
                assert(r@ =~= committed_range(old(self)@, offset as int, size as int));
            }
            r
        }
    }

    /// Writes every dirty resident page back to the segment file; afterwards
    /// every committed byte stands in the file itself.
    pub fn flush_all(&mut self)
        requires
            old(self).inv(),
        ensures
            final(self).inv(),
            final(self)@.page_size == old(self)@.page_size,
            final(self)@.cap == old(self)@.cap,
            final(self)@.next_page_id == old(self)@.next_page_id,
            final(self)@.last_offset == old(self)@.last_offset,
            final(self)@.last_size == old(self)@.last_size,
            final(self)@.pages.dom() == old(self)@.pages.dom(),
            forall|pid: int|
                #[trigger] old(self)@.pages.dom().contains(pid) ==> final(self)@.pages[pid]
                    == (PageModel { dirty: false, ..old(self)@.pages[pid] }),
            forall|addr: int|
                committed_byte(final(self)@, addr) == committed_byte(old(self)@, addr),
            forall|addr: int|
                committed_byte(final(self)@, addr) == byte_at(final(self)@.file, addr),
    {
        let ghost ps = self.page_size as int;
        let n = self.pages.len();
        let mut ids: Vec<usize> = Vec::new();
        let mut i: usize = 0;
        while i < n
            invariant
                0 <= i <= n == self.pages@.len(),
                ids@.len() == i,
                forall|j: int| 0 <= j < i ==> ids@[j] == (#[trigger] self.pages@[j]).id(),
            decreases n - i,
        {
            ids.push(self.pages[i].page_id);
            i = i + 1;
        }
        proof {
            lemma_pages_map_domain(self.pages@);
            assert forall|k2: int| 0 <= k2 < n implies old(self)@.pages.dom().contains(
                #[trigger] ids@[k2] as int,
            ) by {
                lemma_pages_map_index(self.pages@, k2);
            }
            assert forall|pid: int| #[trigger] old(self)@.pages.dom().contains(pid) implies exists|
                k2: int,
            | 0 <= k2 < n && ids@[k2] as int == pid by {
                let i3 = choose|i3: int|
                    0 <= i3 < self.pages@.len() && #[trigger] self.pages@[i3].id() == pid;
                assert(ids@[i3] as int == pid);
            }
        }
        let mut j: usize = 0;
        while j < n
            invariant
                0 <= j <= n,
                ids@.len() == n,
                self.inv(),
                self@.page_size == old(self)@.page_size,
                self@.cap == old(self)@.cap,
                self@.next_page_id == old(self)@.next_page_id,
                self@.last_offset == old(self)@.last_offset,
                self@.last_size == old(self)@.last_size,
                self@.pages.dom() == old(self)@.pages.dom(),
                forall|pid: int|
                    #[trigger] old(self)@.pages.dom().contains(pid) ==> (self@.pages[pid] == old(
                        self,
                    )@.pages[pid] || self@.pages[pid] == (PageModel {
                        dirty: false,
                        ..old(self)@.pages[pid]
                    })),
                forall|k: int|
                    0 <= k < j ==> old(self)@.pages.dom().contains(#[trigger] ids@[k] as int)
                        && self@.pages[ids@[k] as int].dirty == false,
                forall|addr: int|
                    committed_byte(self@, addr) == committed_byte(old(self)@, addr),
                forall|k2: int| 0 <= k2 < n ==> old(self)@.pages.dom().contains(
                    #[trigger] ids@[k2] as int),
                forall|pid: int| #[trigger] old(self)@.pages.dom().contains(pid) ==> exists|k2: int|
                    0 <= k2 < n && ids@[k2] as int == pid,
            decreases n - j,
        {
            let id = ids[j];
            let ghost before = self@;
            self.flush(id);
            proof {
                assert forall|pid: int| #[trigger] old(self)@.pages.dom().contains(pid) implies (
                self@.pages[pid] == old(self)@.pages[pid] || self@.pages[pid] == (PageModel {
                    dirty: false,
                    ..old(self)@.pages[pid]
                })) by {
                    if pid == id as int {
                    } else {
                        assert(self@.pages[pid] == before.pages[pid]);
                    }
                }
            }
            j = j + 1;
        }
        proof {
            assert forall|pid: int| #[trigger] old(self)@.pages.dom().contains(pid) implies
                self@.pages[pid] == (PageModel { dirty: false, ..old(self)@.pages[pid] }) by {
                let k2 = choose|k2: int| 0 <= k2 < n && ids@[k2] as int == pid;
                assert(self@.pages[pid].dirty == false);
            }
            assert forall|addr: int|
                committed_byte(self@, addr) == byte_at(self@.file, addr) by {
                let pid = addr / ps;
                if self@.pages.dom().contains(pid) {
                    lemma_pages_map_domain(self.pages@);
                    let idx2 = choose|idx2: int|
                        0 <= idx2 < self.pages@.len() && #[trigger] self.pages@[idx2].id() == pid;
                    lemma_pages_map_index(self.pages@, idx2);
                    lemma_page_addr_range(ps, pid, addr);
                    assert(!self.pages@[idx2]@.dirty) by {
                        assert(old(self)@.pages.dom().contains(pid));
                    }
                    assert(self.pages@[idx2]@.bytes[addr % ps] == byte_at(
                        self.file@,
                        pid * ps + (addr % ps),
                    ));
                }
            }
        }
    }

    /// Appends `data` to the segment: into the tail page when it still has
    /// room, else onto a fresh page, evicting first when the cache is full.
    /// Returns `(extent offset, first free offset after it, extent size)`.
    /// A payload larger than one page is refused; extents never cross a page
    /// boundary. No committed byte below the new extent changes.
    pub fn write(&mut self, data: &[u8]) -> (r: Result<(usize, usize, usize), StoreError>)
        requires
            old(self).inv(),
            can_append(old(self)@),
        ensures
            final(self).inv(),
            final(self)@.page_size == old(self)@.page_size,
            final(self)@.cap == old(self)@.cap,
            match r {
                Ok(v) => {
                    let (o, t, s) = v;
                    &&& data@.len() <= old(self)@.page_size
                    &&& o == append_pos(old(self)@, data@.len() as int)
                    &&& s == data@.len()
                    &&& t == o + s
                    &&& o as int % old(self)@.page_size + s as int <= old(self)@.page_size
                    &&& cursor_end(old(self)@) <= o
                    &&& forall|addr: int|
                        addr < o ==> committed_byte(final(self)@, addr) == committed_byte(
                            old(self)@,
                            addr,
                        )
                    &&& committed_range(final(self)@, o as int, s as int) == data@
                    &&& final(self)@.last_offset == (if data@.len() > 0 {
                        o as int
                    } else {
                        old(self)@.last_offset
                    })
                    &&& final(self)@.last_size == (if data@.len() > 0 {
                        s as int
                    } else {
                        old(self)@.last_size
                    })
                    &&& cursor_end(final(self)@) == o + s
                    &&& final(self)@.next_page_id == (if old(self)@.next_page_id > 0
                        && tail_watermark(old(self)@) + data@.len() <= old(self)@.page_size {
                        old(self)@.next_page_id
                    } else {
                        old(self)@.next_page_id + 1
                    })
                },
                Err(e) => {
                    &&& e == StoreError::CapacityExceeded
                    &&& data@.len() > old(self)@.page_size
                    &&& final(self)@ == old(self)@
                },
            },
    {
        let len = data.len();
        if len > self.page_size {
            return Err(StoreError::CapacityExceeded);
        }
        if self.usage_counter < usize::MAX {
            self.usage_counter = self.usage_counter + 1;
        }
        let lu = self.usage_counter;
        proof {
            assert(self@ == old(self)@);
        }
        let ghost ps = self.page_size as int;
        if self.next_page_id > 0 {
            let tail_id = self.next_page_id - 1;
            let lo = self.last_page_offset_and_size.0;
            let ls = self.last_page_offset_and_size.1;
            let w = lo % self.page_size + ls;
            proof {
                vstd::arithmetic::div_mod::lemma_fundamental_div_mod(lo as int, ps);
                vstd::arithmetic::mul::lemma_mul_is_commutative(ps, tail_id as int);
                vstd::arithmetic::mul::lemma_mul_is_distributive_add_other_way(
                    ps,
                    tail_id as int,
                    1,
                );
                assert(tail_id as int * ps + w == lo + ls);
                assert(tail_id as int * ps + ps == self.next_page_id as int * ps);
            }
            if len <= self.page_size - w {
                if len == 0 {
                    proof {
                        assert(committed_range(final(self)@, (lo + ls) as int, 0) =~= data@);
                    }
                    return Ok((lo + ls, lo + ls, 0));
                }
                let ghost pre = self@;
                let idx = match self.find_idx(tail_id) {
                    Some(i) => i,
                    None => self.load_page(tail_id),
                };
                proof {
                    lemma_pages_map_index(self.pages@, idx as int);
                }
                let ghost mid = self@;
                let ghost mid_pages = self.pages@;
                let ghost tail_model = self.pages@[idx as int]@;
                let p = page_mut(&mut self.pages, idx);
                p.reset_watermark(w);
                let in_off = p.write(data);
                p.last_used = lu;
                let o = tail_id * self.page_size + w;
                self.last_page_offset_and_size = (o, len);
                proof {
                    let p2 = self.pages@[idx as int];
                    lemma_pages_map_update(mid_pages, idx as int, p2);
                    lemma_pages_map_domain(mid_pages);
                    lemma_pages_map_domain(self.pages@);
                    assert(distinct_ids(self.pages@)) by {
                        assert(forall|j: int|
                            0 <= j < self.pages@.len() && j != idx
                                ==> #[trigger] self.pages@[j] == mid_pages[j]);
                    }
                    assert(self@.pages =~= mid.pages.insert(tail_id as int, p2@));
                    lemma_addr_in_page(ps, tail_id as int, o as int);
                    assert(o as int % ps == w);
                    // the new extent reads back as the data written
                    assert forall|j: int| 0 <= j < len implies committed_byte(self@, o + j)
                        == data@[j] by {
                        let a = o + j;
                        lemma_addr_in_page(ps, tail_id as int, a);
                        assert(a % ps == w + j);
                        assert(p2@.bytes[w + j] == data@[j]);
                    }
                    assert(committed_range(self@, o as int, len as int) =~= data@);
                    // nothing below the extent moved
                    assert forall|addr: int| addr < o implies committed_byte(self@, addr)
                        == committed_byte(mid, addr) by {
                        let pid = addr / ps;
                        if pid == tail_id as int {
                            lemma_page_addr_range(ps, tail_id as int, addr);
                            assert(addr % ps < w);
                            assert(p2@.bytes[addr % ps] == tail_model.bytes[addr % ps]);
                        }
                    }
                    // the invariant survives: the tail page is dirty, the
                    // rest is as it was
                    assert forall|i2: int, k: int|
                        0 <= i2 < self.pages@.len() && !self.pages@[i2]@.dirty && 0 <= k
                            < self.page_size implies #[trigger] self.pages@[i2]@.bytes[k]
                        == byte_at(
                        self.file@,
                        self.pages@[i2].id() * self.page_size as int + k,
                    ) by {
                        assert(i2 != idx);
                        assert(self.pages@[i2] == mid_pages[i2]);
                    }
                }
                proof {
                    assert(o == append_pos(old(self)@, data@.len() as int));
                }
                Ok((o, o + len, len))
            } else {
                let rr = self.write_new_page(data, lu);
                proof {
                    assert(rr.0 == append_pos(old(self)@, data@.len() as int));
                }
                Ok(rr)
            }
        } else {
            let rr = self.write_new_page(data, lu);
            proof {
                vstd::arithmetic::mul::lemma_mul_by_zero_is_zero(old(self)@.page_size);
                assert(rr.0 == append_pos(old(self)@, data@.len() as int));
            }
            Ok(rr)
        }
    }

    /// Starts a fresh page holding `data` at its head, writes it through to
    /// the segment file at once so the file covers it, and makes it the tail.
    fn write_new_page(&mut self, data: &[u8], lu: usize) -> (r: (usize, usize, usize))
        requires
            old(self).inv(),
            can_append(old(self)@),
            data@.len() <= old(self)@.page_size,
        ensures
            final(self).inv(),
            final(self)@.page_size == old(self)@.page_size,
            final(self)@.cap == old(self)@.cap,
            r.0 == old(self)@.next_page_id * old(self)@.page_size,
            r.2 == data@.len(),
            r.1 == r.0 + r.2,
            r.0 as int % old(self)@.page_size == 0,
            cursor_end(old(self)@) <= r.0,
            forall|addr: int|
                addr < r.0 ==> committed_byte(final(self)@, addr) == committed_byte(
                    old(self)@,
                    addr,
                ),
            committed_range(final(self)@, r.0 as int, r.2 as int) == data@,
            final(self)@.last_offset == r.0,
            final(self)@.last_size == r.2,
            final(self)@.next_page_id == old(self)@.next_page_id + 1,
    {
        let ghost ps = self.page_size as int;
        proof {
            lemma_pages_map_len(self.pages@);
            vstd::arithmetic::mul::lemma_mul_inequality(
                self.next_page_id as int,
                self.next_page_id as int + 1,
                ps,
            );
            vstd::arithmetic::mul::lemma_mul_ordering(self.next_page_id as int + 1, ps);
            vstd::arithmetic::mul::lemma_mul_is_distributive_add_other_way(
                ps,
                self.next_page_id as int,
                1,
            );
            if self.next_page_id > 0 {
                vstd::arithmetic::div_mod::lemma_fundamental_div_mod(
                    self.last_page_offset_and_size.0 as int,
                    ps,
                );
                vstd::arithmetic::mul::lemma_mul_is_commutative(
                    ps,
                    self.next_page_id as int - 1,
                );
                vstd::arithmetic::mul::lemma_mul_is_distributive_add_other_way(
                    ps,
                    self.next_page_id as int - 1,
                    1,
                );
            }
        }
        if self.pages.len() >= self.cap {
            self.evict();
        }
        proof {
            lemma_pages_map_len(old(self).pages@);
            lemma_pages_map_len(self.pages@);
            assert(self.pages@.len() < self.cap);
        }
        let ghost mid = self@;
        let ghost mid_pages = self.pages@;
        let id = self.next_page_id;
        self.next_page_id = id + 1;
        let mut page = Page::new(id, lu, self.page_size);
        let _in_off = page.write(data);
        let off = id * self.page_size;
        self.file.write_range(off, page.data.as_slice());
        page.is_dirty = false;
        let ghost pre_push = self.pages@;
        let ghost new_model = page@;
        self.pages.push(page);
        self.last_page_offset_and_size = (off, data.len());
        let len = data.len();
        proof {
            lemma_pages_map_push(pre_push, self.pages@[self.pages@.len() - 1]);
            lemma_pages_map_domain(pre_push);
            lemma_pages_map_domain(self.pages@);
            assert(distinct_ids(self.pages@)) by {
                assert(forall|j: int|
                    0 <= j < pre_push.len() ==> (#[trigger] pre_push[j]).id() < id as int);
                assert(forall|j: int|
                    0 <= j < self.pages@.len() - 1 ==> self.pages@[j] == pre_push[j]);
            }
            assert(self@.pages =~= mid.pages.insert(id as int, new_model));
            lemma_addr_in_page(ps, id as int, off as int);
            // the fresh page holds the payload, then zeros
            assert forall|j: int| 0 <= j < len implies committed_byte(self@, off + j) == data@[j]
                by {
                let a = off + j;
                lemma_addr_in_page(ps, id as int, a);
                assert(a % ps == j);
                assert(new_model.bytes[j] == data@[j]);
            }
            assert(committed_range(self@, off as int, len as int) =~= data@);
            // everything below the fresh page is as it was
            assert forall|addr: int| addr < off implies committed_byte(self@, addr)
                == committed_byte(mid, addr) by {
                let pid = addr / ps;
                if pid == id as int {
                    lemma_page_addr_range(ps, id as int, addr);
                    assert(false);
                }
                if mid.pages.dom().contains(pid) {
                    assert(committed_byte(self@, addr) == self@.pages[pid].bytes[addr % ps]);
                } else {
                    assert(byte_at(self@.file, addr) == byte_at(mid.file, addr));
                }
            }
            // the invariant survives; the fresh page is clean and written
            // through, the rest of the file is untouched
            assert forall|i2: int, k: int|
                0 <= i2 < self.pages@.len() && !self.pages@[i2]@.dirty && 0 <= k < self.page_size
                    implies #[trigger] self.pages@[i2]@.bytes[k] == byte_at(
                self.file@,
                self.pages@[i2].id() * self.page_size as int + k,
            ) by {
                if i2 == self.pages@.len() - 1 {
                    assert(byte_at(self.file@, id as int * ps + k) == new_model.bytes[k]);
                } else {
                    assert(self.pages@[i2] == pre_push[i2]);
                    let id2 = self.pages@[i2].id();
                    assert(id2 * ps <= id2 * ps + k < (id2 + 1) * ps) by {
                        vstd::arithmetic::mul::lemma_mul_is_distributive_add_other_way(
                            ps,
                            id2,
                            1,
                        );
                    }
                    if off as int <= id2 * ps + k < off as int + ps {
                        lemma_addr_in_page(ps, id as int, id2 * ps + k);
                        lemma_addr_in_page(ps, id2, id2 * ps + k);
                        assert(false);
                    }
                    assert(byte_at(self.file@, id2 * ps + k) == byte_at(mid.file, id2 * ps + k));
                }
            }
        }
        (off, off + len, len)
    }

    /// The page size in bytes.
    pub fn page_size(&self) -> (r: usize)
        ensures
            r == self@.page_size,
    {
        self.page_size
    }

    /// Where the next append of `len` bytes will land, without appending.
    pub fn append_position(&self, len: usize) -> (r: usize)
        requires
            self.inv(),
            can_append(self@),
            len <= self@.page_size,
        ensures
            r == append_pos(self@, len as int),
    {
        if self.next_page_id == 0 {
            0
        } else {
            let lo = self.last_page_offset_and_size.0;
            let ls = self.last_page_offset_and_size.1;
            let w = lo % self.page_size + ls;
            if len <= self.page_size - w {
                lo + ls
            } else {
                proof {
                    vstd::arithmetic::mul::lemma_mul_inequality(
                        self.next_page_id as int,
                        self.next_page_id as int + 1,
                        self.page_size as int,
                    );
                }
                self.next_page_id * self.page_size
            }
        }
    }

    /// Whether the address space still has room for one more page.
    pub fn can_append_now(&self) -> (r: bool)
        requires
            self.inv(),
        ensures
            r == can_append(self@),
    {
        match self.next_page_id.checked_add(1) {
            Some(n) => match n.checked_mul(self.page_size) {
                Some(_) => true,
                None => false,
            },
            None => {
                proof {
                    vstd::arithmetic::mul::lemma_mul_nonnegative(
                        self.next_page_id as int + 1,
                        self.page_size as int,
                    );
                    vstd::arithmetic::mul::lemma_mul_ordering(
                        self.next_page_id as int + 1,
                        self.page_size as int,
                    );
                }
                false
            },
        }
    }

    /// The segment file image, handed back at shutdown.
    pub fn into_file_bytes(self) -> (r: Vec<u8>)
        ensures
            r@ == self@.file,
    {
        self.file.into_bytes()
    }

    /// Records the most recently committed extent; appends resume after it.
    pub fn update_last_page_offset(&mut self, offset: usize, size: usize)
        requires
            old(self).inv(),
            old(self)@.next_page_id > 0,
            offset as int / old(self)@.page_size == old(self)@.next_page_id - 1,
            offset as int % old(self)@.page_size + size as int <= old(self)@.page_size,
            offset + size <= usize::MAX,
        ensures
            final(self).inv(),
            final(self)@ == (CacheModel {
                last_offset: offset as int,
                last_size: size as int,
                ..old(self)@
            }),
    {
        self.last_page_offset_and_size = (offset, size);
    }
}

/// An owned snapshot of a page, equal to it in every observable part.
fn copy_page(p: &Page) -> (r: Page)
    ensures
        r@ == p@,
        r.id() == p.id(),
{
    Page {
        page_id: p.page_id,
        data: vstd::slice::slice_to_vec(p.data.as_slice()),
        is_dirty: p.is_dirty,
        last_used: p.last_used,
        last_written_offset: p.last_written_offset,
    }
}

/// A mutable borrow of one slot of the resident set.
fn page_mut(v: &mut Vec<Page>, i: usize) -> (r: &mut Page)
    requires
        i < old(v)@.len(),
    ensures
        *r == old(v)@[i as int],
        final(v)@ == old(v)@.update(i as int, *final(r)),
{
    &mut v[i]
}

/// The position just past the last nonzero byte of a loaded page buffer: the
/// watermark heuristic used when a page comes back off disk.
fn find_last_written_offset(buf: &[u8]) -> (r: usize)
    ensures
        r <= buf@.len(),
        forall|i: int| r <= i < buf@.len() ==> buf@[i] == 0,
{
    let mut i = buf.len();
    while i > 0
        invariant
            0 <= i <= buf@.len(),
            forall|j: int| i <= j < buf@.len() ==> buf@[j] == 0,
        decreases i,
    {
        if buf[i - 1] != 0 {
            return i;
        }
        i = i - 1;
    }
    0
}

} // verus!
