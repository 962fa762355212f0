//! The write-ahead log: extent records appended line by line to rotating
//! log files. Every committed extent is recorded here before the store
//! treats it as durable; on startup the records rebuild the term map and
//! locate the tail of the segment file.
//!
//! The log files are held as in-memory images ([`LogFile`]); the
//! surrounding program moves them to and from `wal{N}.log` files on disk.

use vstd::prelude::*;

use crate::codec::{parse_record, parse_record_spec};
use crate::StoreError;

verus! {

/// One log file: the number `N` of its `wal{N}.log` name, and its bytes.
pub struct LogFile {
    pub file_index: usize,
    pub contents: Vec<u8>,
}

/// The index of the first newline at or after `from`, or the length when
/// there is none.
pub open spec fn first_nl(s: Seq<u8>, from: int) -> int
    decreases s.len() - from,
{
    if from < 0 || from >= s.len() {
        s.len() as int
    } else if s[from] == 10 {
        from
    } else {
        first_nl(s, from + 1)
    }
}

pub proof fn lemma_first_nl_at(s: Seq<u8>, from: int, at: int)
    requires
        0 <= from <= at <= s.len(),
        forall|j: int| from <= j < at ==> s[j] != 10,
        at < s.len() ==> s[at] == 10,
    ensures
        first_nl(s, from) == at,
    decreases at - from,
{
    if from < at {
        lemma_first_nl_at(s, from + 1, at);
    }
}

/// The nonempty lines of a byte string, split on newlines, in order. A
/// trailing run without a final newline counts as one (partial) line.
pub open spec fn split_lines(s: Seq<u8>) -> Seq<Seq<u8>>
    decreases s.len(),
    via split_lines_decreases
{
    if s.len() == 0 {
        Seq::empty()
    } else {
        let i = first_nl(s, 0);
        if i == s.len() {
            seq![s]
        } else {
            let head = s.subrange(0, i);
            let tail = s.subrange(i + 1, s.len() as int);
            if i == 0 {
                split_lines(tail)
            } else {
                seq![head] + split_lines(tail)
            }
        }
    }
}

#[via_fn]
proof fn split_lines_decreases(s: Seq<u8>) {
    if s.len() > 0 {
        lemma_first_nl_props(s, 0);
    }
}

/// A byte string with no newline in it: at most one line.
pub open spec fn no_newline(s: Seq<u8>) -> bool {
    forall|i: int| 0 <= i < s.len() ==> s[i] != 10
}

/// A file whose every record line is complete: empty, or newline-terminated.
pub open spec fn line_clean(s: Seq<u8>) -> bool {
    s.len() == 0 || s.last() == 10
}

/// Splitting distributes over concatenation at a clean break.
pub proof fn lemma_split_lines_append(s: Seq<u8>, t: Seq<u8>)
    requires
        line_clean(s),
    ensures
        split_lines(s + t) == split_lines(s) + split_lines(t),
    decreases s.len(),
{
    if s.len() == 0 {
        assert(s + t =~= t);
        assert(split_lines(s) + split_lines(t) =~= split_lines(t));
    } else {
        let u = s + t;
        let i = first_nl(s, 0);
        lemma_first_nl_props(s, 0);
        assert(i < s.len());
        lemma_first_nl_at(u, 0, i);
        let s_tail = s.subrange(i + 1, s.len() as int);
        let u_tail = u.subrange(i + 1, u.len() as int);
        assert(u_tail =~= s_tail + t);
        assert(line_clean(s_tail)) by {
            if s_tail.len() > 0 {
                assert(s_tail.last() == s.last());
            }
        }
        lemma_split_lines_append(s_tail, t);
        if i == 0 {
            assert(split_lines(u) == split_lines(u_tail));
            assert(split_lines(s) == split_lines(s_tail));
        } else {
            assert(u.subrange(0, i) =~= s.subrange(0, i));
            assert(split_lines(u) == seq![u.subrange(0, i)] + split_lines(u_tail));
            assert(split_lines(s) + split_lines(t) =~= seq![s.subrange(0, i)] + (split_lines(
                s_tail,
            ) + split_lines(t)));
        }
    }
}

pub proof fn lemma_first_nl_props(s: Seq<u8>, from: int)
    requires
        0 <= from <= s.len(),
    ensures
        from <= first_nl(s, from) <= s.len(),
        first_nl(s, from) < s.len() ==> s[first_nl(s, from)] == 10,
        forall|j: int| from <= j < first_nl(s, from) ==> s[j] != 10,
        (exists|j: int| from <= j < s.len() && s[j] == 10) ==> first_nl(s, from) < s.len(),
    decreases s.len() - from,
{
    if from < s.len() && s[from] != 10 {
        lemma_first_nl_props(s, from + 1);
    }
}

/// A nonempty newline-free record followed by a newline is exactly one line.
pub proof fn lemma_split_lines_single(r: Seq<u8>)
    requires
        r.len() > 0,
        no_newline(r),
    ensures
        split_lines(r + seq![10u8]) == seq![r],
{
    reveal_with_fuel(split_lines, 2);
    let s = r + seq![10u8];
    assert forall|j: int| 0 <= j < r.len() implies s[j] != 10 by {
        assert(s[j] == r[j]);
    }
    assert(s[r.len() as int] == 10);
    lemma_first_nl_at(s, 0, r.len() as int);
    let head = s.subrange(0, r.len() as int);
    assert(head =~= r);
    let tail = s.subrange(r.len() as int + 1, s.len() as int);
    assert(tail =~= Seq::<u8>::empty());
    assert(split_lines(s) =~= seq![r]);
}

/// A lone newline holds no line.
pub proof fn lemma_split_lines_nl()
    ensures
        split_lines(seq![10u8]) == Seq::<Seq<u8>>::empty(),
{
    reveal_with_fuel(split_lines, 2);
    let s = seq![10u8];
    assert(s[0] == 10);
    lemma_first_nl_at(s, 0, 0);
    assert(s.subrange(1, 1) =~= Seq::<u8>::empty());
}

/// Recovery after an interrupted write: a file that ends in a truncated
/// record, bytes with no final newline, reads as if the truncated record
/// had never been started; every fully written record survives.
pub proof fn lemma_recovery_drops_truncated_tail(c: Seq<u8>, tail: Seq<u8>)
    requires
        line_clean(c),
        no_newline(tail),
    ensures
        complete_lines(c + tail) == split_lines(c),
    decreases tail.len(),
{
    if tail.len() == 0 {
        assert(c + tail =~= c);
        lemma_end_of_complete_clean(c);
        assert((c + tail).subrange(0, c.len() as int) =~= c);
    } else {
        let s = c + tail;
        assert(s.last() == tail.last());
        assert(s.drop_last() =~= c + tail.drop_last());
        assert(no_newline(tail.drop_last())) by {
            assert(forall|i: int|
                0 <= i < tail.len() - 1 ==> #[trigger] tail.drop_last()[i] == tail[i]);
        }
        lemma_recovery_drops_truncated_tail(c, tail.drop_last());
        assert(end_of_complete(s) == end_of_complete(s.drop_last()));
        assert(s.subrange(0, end_of_complete(s)) =~= s.drop_last().subrange(
            0,
            end_of_complete(s.drop_last()),
        )) by {
            lemma_end_of_complete(s.drop_last());
        }
    }
}

/// The index just past the last newline of `s`; zero when there is none.
/// Everything after it is a truncated, uncommitted tail.
pub open spec fn end_of_complete(s: Seq<u8>) -> int
    decreases s.len(),
{
    if s.len() == 0 {
        0
    } else if s.last() == 10 {
        s.len() as int
    } else {
        end_of_complete(s.drop_last())
    }
}

pub proof fn lemma_end_of_complete(s: Seq<u8>)
    ensures
        0 <= end_of_complete(s) <= s.len(),
        line_clean(s.subrange(0, end_of_complete(s))),
        forall|j: int| end_of_complete(s) <= j < s.len() ==> s[j] != 10,
    decreases s.len(),
{
    if s.len() > 0 && s.last() != 10 {
        lemma_end_of_complete(s.drop_last());
        assert(s.subrange(0, end_of_complete(s)) =~= s.drop_last().subrange(
            0,
            end_of_complete(s.drop_last()),
        ));
        assert(forall|j: int|
            end_of_complete(s) <= j < s.len() - 1 ==> s[j] == s.drop_last()[j]);
    } else if s.len() > 0 {
        assert(s.subrange(0, s.len() as int) =~= s);
    }
}

/// A clean file keeps all its lines when the truncated tail is dropped.
pub proof fn lemma_end_of_complete_clean(s: Seq<u8>)
    requires
        line_clean(s),
    ensures
        end_of_complete(s) == s.len(),
{
}

/// The complete lines of a file: what recovery reads, the truncated tail
/// dropped.
pub open spec fn complete_lines(s: Seq<u8>) -> Seq<Seq<u8>> {
    split_lines(s.subrange(0, end_of_complete(s)))
}

/// All records of a run of log files, oldest file first.
pub open spec fn lines_of_files(fs: Seq<LogFile>) -> Seq<Seq<u8>>
    decreases fs.len(),
{
    if fs.len() == 0 {
        Seq::empty()
    } else {
        lines_of_files(fs.drop_last()) + split_lines(fs.last().contents@)
    }
}

/// The records of a run of log files as recovery reads them: each file's
/// complete lines, any truncated tail dropped.
pub open spec fn complete_lines_of_files(fs: Seq<LogFile>) -> Seq<Seq<u8>>
    decreases fs.len(),
{
    if fs.len() == 0 {
        Seq::empty()
    } else {
        complete_lines_of_files(fs.drop_last()) + complete_lines(fs.last().contents@)
    }
}

/// On line-clean files, recovery reads every line.
pub proof fn lemma_complete_lines_clean(fs: Seq<LogFile>)
    requires
        forall|i: int| 0 <= i < fs.len() ==> line_clean((#[trigger] fs[i]).contents@),
    ensures
        complete_lines_of_files(fs) == lines_of_files(fs),
    decreases fs.len(),
{
    if fs.len() > 0 {
        assert(forall|i: int|
            0 <= i < fs.len() - 1 ==> (#[trigger] fs.drop_last()[i]).contents@ == fs[i].contents@);
        lemma_complete_lines_clean(fs.drop_last());
        lemma_end_of_complete_clean(fs.last().contents@);
        assert(fs.last().contents@.subrange(0, fs.last().contents@.len() as int) =~= fs.last().contents@);
    }
}

/// The extent recovery resumes from: over all parseable records, the one
/// with the greatest offset, the greatest size breaking a tie; `(0, 0)`
/// when no record parses.
pub open spec fn last_extent_of(lines: Seq<Seq<u8>>) -> (usize, usize)
    decreases lines.len(),
{
    if lines.len() == 0 {
        (0usize, 0usize)
    } else {
        let prev = last_extent_of(lines.drop_last());
        match parse_record_spec(lines.last()) {
            Some(rec) => {
                let (t, o, s) = rec;
                if o > prev.0 || (o == prev.0 && s > prev.1) {
                    (o, s)
                } else {
                    prev
                }
            },
            None => prev,
        }
    }
}

/// The write-ahead log: a run of rotating record files, the last one
/// current. Records are appended with a trailing newline; a file is rotated
/// rather than grown past `size` bytes.
pub struct WAL {
    files: Vec<LogFile>,
    size: usize,
    index: usize,
}

impl WAL {
    /// Every record logged, oldest first.
    pub closed spec fn lines(self) -> Seq<Seq<u8>> {
        lines_of_files(self.files@)
    }

    /// The rotation threshold: no log call leaves a file larger than this.
    pub closed spec fn size_limit(self) -> int {
        self.size as int
    }

    /// The number the next created log file will carry.
    pub closed spec fn next_index(self) -> int {
        self.index as int
    }

    pub closed spec fn files_view(self) -> Seq<LogFile> {
        self.files@
    }

    /// Every file ends on a record boundary, and every file number stays
    /// below the next to be handed out.
    pub closed spec fn inv(self) -> bool {
        &&& forall|i: int|
            0 <= i < self.files@.len() ==> line_clean((#[trigger] self.files@[i]).contents@)
        &&& forall|i: int|
            0 <= i < self.files@.len() ==> (#[trigger] self.files@[i]).file_index < self.index
    }

    /// Room for one more file number.
    pub open spec fn can_log(self) -> bool {
        self.next_index() < usize::MAX
    }

    /// A fresh log: one empty file `wal{index}.log`, nothing recorded.
    pub fn new(size: usize, index: usize) -> (r: WAL)
        requires
            index < usize::MAX,
        ensures
            r.inv(),
            r.lines() == Seq::<Seq<u8>>::empty(),
            r.size_limit() == size as int,
            r.next_index() == index + 1,
            r.files_view().len() == 1,
            r.files_view()[0].file_index == index,
            r.files_view()[0].contents@ == Seq::<u8>::empty(),
    {
        let mut files: Vec<LogFile> = Vec::new();
        files.push(LogFile { file_index: index, contents: Vec::new() });
        let r = WAL { files, size, index: index + 1 };
        proof {
            reveal_with_fuel(lines_of_files, 2);
            assert(r.files@.drop_last() =~= Seq::<LogFile>::empty());
            assert(r.lines() =~= Seq::<Seq<u8>>::empty());
        }
        r
    }

    /// A log rebuilt from the files found on disk, oldest first. Each
    /// file's truncated tail, bytes after its last newline, is dropped: a
    /// record interrupted mid-write was never committed. The next file
    /// number continues past both `index` and every number seen.
    pub fn open(files: Vec<LogFile>, size: usize, index: usize) -> (r: WAL)
        requires
            forall|i: int|
                0 <= i < files@.len() ==> (#[trigger] files@[i]).file_index < usize::MAX,
        ensures
            r.inv(),
            r.size_limit() == size as int,
            r.lines() == complete_lines_of_files(files@),
            r.files_view().len() == files@.len(),
            forall|i: int|
                0 <= i < files@.len() ==> (#[trigger] r.files_view()[i]).file_index
                    == files@[i].file_index && r.files_view()[i].contents@
                    == files@[i].contents@.subrange(0, end_of_complete(files@[i].contents@)),
            r.next_index() >= index,
            files@.len() == 0 ==> r.next_index() == index,
    {
        let mut files = files;
        let ghost orig = files@;
        let n = files.len();
        let mut idx = index;
        let mut i: usize = 0;
        while i < n
            invariant
                0 <= i <= n == files@.len() == orig.len(),
                idx >= index,
                i == 0 ==> idx == index,
                forall|j: int|
                    0 <= j < orig.len() ==> (#[trigger] orig[j]).file_index < usize::MAX,
                forall|j: int| i <= j < n ==> #[trigger] files@[j] == orig[j],
                forall|j: int|
                    0 <= j < i ==> (#[trigger] files@[j]).file_index == orig[j].file_index
                        && files@[j].contents@ == orig[j].contents@.subrange(
                        0,
                        end_of_complete(orig[j].contents@),
                    ) && files@[j].file_index < idx && line_clean(files@[j].contents@),
            decreases n - i,
        {
            let fi = files[i].file_index;
            if fi >= idx {
                idx = fi + 1;
            }
            let f = log_file_mut(&mut files, i);
            trim_partial_tail(&mut f.contents);
            proof {
                lemma_end_of_complete(orig[i as int].contents@);
            }
            i = i + 1;
        }
        let r = WAL { files, size, index: idx };
        proof {
            lemma_lines_trimmed(r.files@, orig);
        }
        r
    }

    /// Starts the next log file, `wal{next_index}.log`, empty, and makes it
    /// current. Records nothing.
    pub fn create_file(&mut self)
        requires
            old(self).inv(),
            old(self).can_log(),
        ensures
            final(self).inv(),
            final(self).size_limit() == old(self).size_limit(),
            final(self).lines() == old(self).lines(),
            final(self).next_index() == old(self).next_index() + 1,
            final(self).files_view().len() == old(self).files_view().len() + 1,
            forall|i: int|
                0 <= i < old(self).files_view().len() ==> #[trigger] final(self).files_view()[i]
                    == old(self).files_view()[i],
            final(self).files_view().last().file_index == old(self).next_index(),
            final(self).files_view().last().contents@ == Seq::<u8>::empty(),
    {
        let fi = self.index;
        self.index = self.index + 1;
        let ghost pre = self.files@;
        self.files.push(LogFile { file_index: fi, contents: Vec::new() });
        proof {
            assert(self.files@.drop_last() =~= pre);
            assert(self.lines() =~= lines_of_files(pre));
        }
    }

    /// Appends one record as a line of its own, rotating to a fresh file
    /// first when the current one would grow past the size limit. A record
    /// that no file could hold is refused; records are never split.
    pub fn log(&mut self, record: &[u8]) -> (r: Result<(), StoreError>)
        requires
            old(self).inv(),
            old(self).can_log(),
            record@.len() >= 1,
            no_newline(record@),
        ensures
            final(self).inv(),
            final(self).size_limit() == old(self).size_limit(),
            ({
                let pre = old(self).files_view();
                let post = final(self).files_view();
                let lim = old(self).size_limit();
                match r {
                    Ok(u) => {
                        &&& record@.len() + 1 <= lim
                        &&& final(self).lines() == old(self).lines().push(record@)
                        &&& post.len() >= 1
                        &&& post.last().contents@.len() <= lim
                        &&& (post.len() == pre.len() + 1) == (pre.len() == 0
                            || pre.last().contents@.len() + record@.len() + 1 > lim)
                        &&& (post.len() == pre.len() + 1 ==> (forall|i: int|
                            0 <= i < pre.len() ==> #[trigger] post[i] == pre[i])
                            && post.last().contents@ == record@ + seq![10u8]
                            && post.last().file_index == old(self).next_index())
                        &&& (post.len() == pre.len() ==> (forall|i: int|
                            0 <= i < pre.len() - 1 ==> #[trigger] post[i] == pre[i])
                            && post.last().contents@ == pre.last().contents@ + record@
                            + seq![10u8] && post.last().file_index == pre.last().file_index)
                    },
                    Err(e) => {
                        &&& e == StoreError::CapacityExceeded
                        &&& record@.len() + 1 > lim
                        &&& *final(self) == *old(self)
                    },
                }
            }),
    {
        let len = record.len();
        if len >= self.size {
            return Err(StoreError::CapacityExceeded);
        }
        let room = self.size - len - 1;
        let must_create = if self.files.len() == 0 {
            true
        } else {
            self.files[self.files.len() - 1].contents.len() > room
        };
        if must_create {
            self.create_file();
        }
        let ghost mid = *self;
        let ghost pre_files = self.files@;
        let k = self.files.len() - 1;
        let f = log_file_mut(&mut self.files, k);
        let ghost pre_c = f.contents@;
        let mut i: usize = 0;
        while i < len
            invariant
                0 <= i <= len == record@.len(),
                f.contents@ == pre_c + record@.subrange(0, i as int),
                f.file_index == pre_files[k as int].file_index,
                pre_c.len() + len + 1 <= mid.size,
            decreases len - i,
        {
            f.contents.push(record[i]);
            proof {
                assert(f.contents@ =~= pre_c + record@.subrange(0, i + 1int));
            }
            i = i + 1;
        }
        f.contents.push(10);
        proof {
            assert(f.contents@ =~= pre_c + record@ + seq![10u8]);
        }
        proof {
            let fin = self.files@;
            assert(fin =~= pre_files.update(k as int, fin[k as int]));
            assert(fin.drop_last() =~= pre_files.drop_last());
            assert(line_clean(pre_c));
            lemma_split_lines_append(pre_c, record@ + seq![10u8]);
            lemma_split_lines_single(record@);
            assert(pre_c + (record@ + seq![10u8]) =~= pre_c + record@ + seq![10u8]);
            assert(split_lines(fin.last().contents@) =~= split_lines(pre_c) + seq![record@]);
            assert(self.lines() =~= mid.lines().push(record@)) by {
                assert(lines_of_files(fin) == lines_of_files(pre_files.drop_last()) + (
                split_lines(pre_c) + seq![record@]));
                assert(lines_of_files(pre_files) == lines_of_files(pre_files.drop_last())
                    + split_lines(pre_c));
            }
            if !must_create {
                assert(mid.lines() == old(self).lines());
            }
        }
        Ok(())
    }

    /// Every record in the log, oldest first: each file's nonempty lines,
    /// in file order.
    pub fn read_records(&self) -> (r: Vec<Vec<u8>>)
        ensures
            r@.map_values(|v: Vec<u8>| v@) == self.lines(),
    {
        let mut r: Vec<Vec<u8>> = Vec::new();
        let n = self.files.len();
        let mut k: usize = 0;
        proof {
            assert(self.files@.subrange(0, 0) =~= Seq::<LogFile>::empty());
        }
        while k < n
            invariant
                0 <= k <= n == self.files@.len(),
                r@.map_values(|v: Vec<u8>| v@) == lines_of_files(self.files@.subrange(0, k as int)),
            decreases n - k,
        {
            split_file(self.files[k].contents.as_slice(), &mut r);
            proof {
                assert(self.files@.subrange(0, k + 1int).drop_last() =~= self.files@.subrange(
                    0,
                    k as int,
                ));
                assert(self.files@.subrange(0, k + 1int).last() == self.files@[k as int]);
            }
            k = k + 1;
        }
        proof {
            assert(self.files@.subrange(0, n as int) =~= self.files@);
        }
        r
    }

    /// The extent to resume appending after: among all records that parse
    /// as `term,offset,size`, the one with the greatest offset, largest
    /// size on a tie; `(0, 0)` when none parses.
    pub fn find_last_page_last_written_offset(&self) -> (r: (usize, usize))
        ensures
            r == last_extent_of(self.lines()),
    {
        let records = self.read_records();
        let ghost lns = self.lines();
        let mut best: (usize, usize) = (0, 0);
        let n = records.len();
        let mut i: usize = 0;
        proof {
            assert(lns.subrange(0, 0) =~= Seq::<Seq<u8>>::empty());
        }
        while i < n
            invariant
                0 <= i <= n == records@.len(),
                records@.map_values(|v: Vec<u8>| v@) == lns,
                lns.len() == n,
                best == last_extent_of(lns.subrange(0, i as int)),
            decreases n - i,
        {
            proof {
                assert(records@.map_values(|v: Vec<u8>| v@)[i as int] == records@[i as int]@);
            }
            match parse_record(records[i].as_slice()) {
                Some(rec) => {
                    let (_t, o, s) = rec;
                    if o > best.0 || (o == best.0 && s > best.1) {
                        best = (o, s);
                    }
                },
                None => {},
            }
            proof {
                assert(lns.subrange(0, i + 1int).drop_last() =~= lns.subrange(0, i as int));
                assert(lns.subrange(0, i + 1int).last() == lns[i as int]);
            }
            i = i + 1;
        }
        proof {
            assert(lns.subrange(0, n as int) =~= lns);
        }
        best
    }

    /// How many log files the run holds.
    pub fn file_count(&self) -> (r: usize)
        ensures
            r == self.files_view().len(),
    {
        self.files.len()
    }

    /// The rotation threshold in bytes.
    pub fn limit(&self) -> (r: usize)
        ensures
            r == self.size_limit(),
    {
        self.size
    }

    /// The number the next log file will carry.
    pub fn current_index(&self) -> (r: usize)
        ensures
            r == self.next_index(),
    {
        self.index
    }

    /// Every file of a sound log ends on a record boundary and carries a
    /// number below the next to be handed out.
    pub proof fn lemma_inv_files(self)
        requires
            self.inv(),
        ensures
            forall|i: int|
                0 <= i < self.files_view().len() ==> line_clean(
                    (#[trigger] self.files_view()[i]).contents@,
                ) && self.files_view()[i].file_index < self.next_index(),
    {
    }

    /// Hands the log files back, oldest first, with the next file number:
    /// what a snapshot persists for the next process.
    pub fn into_parts(self) -> (r: (Vec<LogFile>, usize))
        ensures
            r.0@ == self.files_view(),
            r.1 == self.next_index(),
            lines_of_files(r.0@) == self.lines(),
    {
        (self.files, self.index)
    }
}

/// Appends the nonempty lines of one file to `out`.
fn split_file(c: &[u8], out: &mut Vec<Vec<u8>>)
    ensures
        final(out)@.map_values(|v: Vec<u8>| v@) == old(out)@.map_values(|v: Vec<u8>| v@)
            + split_lines(c@),
{
    let ghost base = old(out)@.map_values(|v: Vec<u8>| v@);
    let n = c.len();
    let mut start: usize = 0;
    let mut i: usize = 0;
    proof {
        assert(c@.subrange(0, 0) =~= Seq::<u8>::empty());
        assert(base + split_lines(c@.subrange(0, 0)) =~= base);
    }
    while i < n
        invariant
            0 <= start <= i <= n == c@.len(),
            line_clean(c@.subrange(0, start as int)),
            forall|j: int| start <= j < i ==> c@[j] != 10,
            out@.map_values(|v: Vec<u8>| v@) == base + split_lines(c@.subrange(0, start as int)),
        decreases n - i,
    {
        if c[i] == 10 {
            proof {
                lemma_split_lines_append(
                    c@.subrange(0, start as int),
                    c@.subrange(start as int, i + 1int),
                );
                assert(c@.subrange(0, start as int) + c@.subrange(start as int, i + 1int)
                    =~= c@.subrange(0, i + 1int));
            }
            if i > start {
                let line = crate::codec::copy_range(c, start, i);
                proof {
                    assert(c@.subrange(start as int, i + 1int) =~= c@.subrange(
                        start as int,
                        i as int,
                    ) + seq![10u8]);
                    assert(no_newline(c@.subrange(start as int, i as int))) by {
                        assert(forall|j: int|
                            0 <= j < i - start ==> #[trigger] c@.subrange(
                                start as int,
                                i as int,
                            )[j] == c@[start + j]);
                    }
                    lemma_split_lines_single(c@.subrange(start as int, i as int));
                }
                let ghost pre_out = out@;
                out.push(line);
                proof {
                    assert(split_lines(c@.subrange(0, i + 1int)) == split_lines(
                        c@.subrange(0, start as int),
                    ) + seq![line@]);
                    assert(out@.map_values(|v: Vec<u8>| v@)[pre_out.len() as int] == line@);
                    assert forall|j: int| 0 <= j < pre_out.len() implies (#[trigger] pre_out[j])@
                        == (base + split_lines(c@.subrange(0, start as int)))[j] by {
                        assert(pre_out.map_values(|v: Vec<u8>| v@)[j] == pre_out[j]@);
                    }
                    let m = out@.map_values(|v: Vec<u8>| v@);
                    assert forall|j: int| 0 <= j < out@.len() implies #[trigger] m[j] == (base
                        + split_lines(c@.subrange(0, i + 1int)))[j] by {
                        assert(m[j] == out@[j]@);
                        if j < pre_out.len() {
                            assert(out@[j] == pre_out[j]);
                        } else {
                            assert(out@[j] == line);
                        }
                    }
                    assert(out@.map_values(|v: Vec<u8>| v@) =~= base + split_lines(
                        c@.subrange(0, i + 1int),
                    ));
                }
            } else {
                proof {
                    assert(c@.subrange(start as int, i + 1int) =~= seq![10u8]);
                    lemma_split_lines_nl();
                    assert(out@.map_values(|v: Vec<u8>| v@) =~~= base + split_lines(
                        c@.subrange(0, i + 1int),
                    ));
                }
            }
            start = i + 1;
            proof {
                assert(c@.subrange(0, start as int).last() == 10);
            }
        }
        i = i + 1;
    }
    if start < n {
        let line = crate::codec::copy_range(c, start, n);
        proof {
            lemma_split_lines_append(
                c@.subrange(0, start as int),
                c@.subrange(start as int, n as int),
            );
            assert(c@.subrange(0, start as int) + c@.subrange(start as int, n as int) =~= c@);
            let tail = c@.subrange(start as int, n as int);
            assert(forall|j: int| 0 <= j < tail.len() ==> #[trigger] tail[j] == c@[start + j]);
            lemma_first_nl_at(tail, 0, tail.len() as int);
            assert(split_lines(tail) == seq![tail]);
        }
        let ghost pre_out = out@;
        out.push(line);
        proof {
            assert(split_lines(c@) == split_lines(c@.subrange(0, start as int)) + seq![line@]);
            assert(out@.map_values(|v: Vec<u8>| v@)[pre_out.len() as int] == line@);
            assert forall|j: int| 0 <= j < pre_out.len() implies (#[trigger] pre_out[j])@ == (base
                + split_lines(c@.subrange(0, start as int)))[j] by {
                assert(pre_out.map_values(|v: Vec<u8>| v@)[j] == pre_out[j]@);
            }
            let m = out@.map_values(|v: Vec<u8>| v@);
            assert forall|j: int| 0 <= j < out@.len() implies #[trigger] m[j] == (base
                + split_lines(c@))[j] by {
                assert(m[j] == out@[j]@);
                if j < pre_out.len() {
                    assert(out@[j] == pre_out[j]);
                } else {
                    assert(out@[j] == line);
                }
            }
            assert(out@.map_values(|v: Vec<u8>| v@) =~= base + split_lines(c@));
        }
    } else {
        proof {
            assert(c@.subrange(0, start as int) =~= c@);
        }
    }
}

/// Trimming each file to its complete lines yields exactly what recovery
/// reads from the originals.
pub proof fn lemma_lines_trimmed(ft: Seq<LogFile>, fs: Seq<LogFile>)
    requires
        ft.len() == fs.len(),
        forall|i: int|
            0 <= i < fs.len() ==> (#[trigger] ft[i]).contents@ == fs[i].contents@.subrange(
                0,
                end_of_complete(fs[i].contents@),
            ),
    ensures
        lines_of_files(ft) == complete_lines_of_files(fs),
    decreases fs.len(),
{
    if fs.len() > 0 {
        assert(forall|i: int|
            0 <= i < fs.len() - 1 ==> (#[trigger] ft.drop_last()[i]).contents@
                == fs.drop_last()[i].contents@.subrange(
                0,
                end_of_complete(fs.drop_last()[i].contents@),
            )) by {
            assert(forall|i: int|
                0 <= i < fs.len() - 1 ==> (#[trigger] fs.drop_last()[i]) == fs[i]
                    && ft.drop_last()[i] == ft[i]);
        }
        lemma_lines_trimmed(ft.drop_last(), fs.drop_last());
        assert(ft.last().contents@ == fs.last().contents@.subrange(
            0,
            end_of_complete(fs.last().contents@),
        ));
    }
}

/// A mutable borrow of one log file of the run.
fn log_file_mut(v: &mut Vec<LogFile>, i: usize) -> (r: &mut LogFile)
    requires
        i < old(v)@.len(),
    ensures
        *r == old(v)@[i as int],
        final(v)@ == old(v)@.update(i as int, *final(r)),
{
    &mut v[i]
}

/// Drops the bytes after the last newline: the truncated tail of a file
/// interrupted mid-record.
fn trim_partial_tail(c: &mut Vec<u8>)
    ensures
        final(c)@ == old(c)@.subrange(0, end_of_complete(old(c)@)),
{
    let mut i = c.len();
    let mut hit = false;
    proof {
        assert(c@.subrange(0, c@.len() as int) =~= c@);
    }
    while i > 0 && !hit
        invariant
            0 <= i <= c@.len(),
            c@ == old(c)@,
            hit ==> i > 0 && c@[i - 1] == 10,
            end_of_complete(c@) == end_of_complete(c@.subrange(0, i as int)),
        decreases i + (if hit {
            0int
        } else {
            1int
        }),
    {
        if c[i - 1] == 10 {
            hit = true;
        } else {
            proof {
                let p = c@.subrange(0, i as int);
                assert(p.last() == c@[i - 1]);
                assert(p.drop_last() =~= c@.subrange(0, i - 1));
            }
            i = i - 1;
        }
    }
    proof {
        let p = c@.subrange(0, i as int);
        if hit {
            assert(p.last() == 10);
            assert(end_of_complete(p) == i);
            assert(end_of_complete(c@) == i);
        } else {
            assert(p =~= Seq::<u8>::empty());
            assert(end_of_complete(c@) == 0);
        }
    }
    c.truncate(i);
}

} // verus!
