//! The write-ahead log's record format: one line `term,offset,size` per
//! committed extent, with `offset` and `size` in decimal. This module gives
//! the byte-level encoding and decoding of such lines and proves that they
//! invert each other.

use vstd::prelude::*;

verus! {

/// An ASCII decimal digit.
pub open spec fn is_digit(b: u8) -> bool {
    48 <= b <= 57
}

pub open spec fn all_digits(s: Seq<u8>) -> bool {
    forall|i: int| 0 <= i < s.len() ==> is_digit(#[trigger] s[i])
}

/// The numeric value of a sequence of decimal digits, most significant first.
pub open spec fn digits_val(s: Seq<u8>) -> int
    decreases s.len(),
{
    if s.len() == 0 {
        0
    } else {
        digits_val(s.drop_last()) * 10 + (s.last() - 48)
    }
}

/// The canonical decimal digits of `n`: no leading zeros.
pub open spec fn dec_rep(n: int) -> Seq<u8>
    decreases n,
{
    if n < 10 {
        seq![(48 + if n >= 0 { n } else { 0 }) as u8]
    } else {
        dec_rep(n / 10).push((48 + n % 10) as u8)
    }
}

pub proof fn lemma_dec_rep_digits(n: int)
    requires
        0 <= n,
    ensures
        all_digits(dec_rep(n)),
        dec_rep(n).len() >= 1,
        digits_val(dec_rep(n)) == n,
    decreases n,
{
    if n < 10 {
        let s = dec_rep(n);
        assert(s =~= seq![(48 + n) as u8]);
        assert(s.drop_last() =~= Seq::<u8>::empty());
        assert(s.last() == (48 + n) as u8);
        assert((48 + n) as u8 == 48 + n);
        assert(digits_val(s) == digits_val(s.drop_last()) * 10 + (s.last() - 48));
    } else {
        lemma_dec_rep_digits(n / 10);
        lemma_digits_val_push(dec_rep(n / 10), (48 + n % 10) as u8);
        let s = dec_rep(n);
        assert(s == dec_rep(n / 10).push((48 + n % 10) as u8));
        assert((48 + n % 10) as u8 == 48 + n % 10);
        assert(digits_val(s) == digits_val(dec_rep(n / 10)) * 10 + ((48 + n % 10) as u8 - 48));
        assert(digits_val(s) == (n / 10) * 10 + n % 10);
        assert(s.drop_last() =~= dec_rep(n / 10));
        assert forall|i: int| 0 <= i < s.len() implies is_digit(#[trigger] s[i]) by {
            if i < s.len() - 1 {
                assert(s[i] == dec_rep(n / 10)[i]);
            }
        }
    }
}

/// Appending a digit multiplies the value by ten and adds the digit.
pub proof fn lemma_digits_val_push(s: Seq<u8>, b: u8)
    ensures
        digits_val(s.push(b)) == digits_val(s) * 10 + (b - 48),
{
    assert(s.push(b).drop_last() =~= s);
    assert(s.push(b).last() == b);
}

/// A prefix of a digit string never has a larger value than the whole.
pub proof fn lemma_digits_val_prefix_le(s: Seq<u8>, i: int)
    requires
        all_digits(s),
        0 <= i <= s.len(),
    ensures
        digits_val(s.subrange(0, i)) <= digits_val(s),
        digits_val(s) >= 0,
    decreases s.len() - i,
{
    if i == s.len() {
        assert(s.subrange(0, i) =~= s);
        lemma_digits_val_nonneg(s);
    } else {
        lemma_digits_val_prefix_le(s, i + 1);
        let p = s.subrange(0, i);
        let q = s.subrange(0, i + 1);
        assert(q =~= p.push(s[i]));
        lemma_digits_val_push(p, s[i]);
        lemma_digits_val_nonneg(p);
    }
}

pub proof fn lemma_digits_val_nonneg(s: Seq<u8>)
    requires
        all_digits(s),
    ensures
        digits_val(s) >= 0,
    decreases s.len(),
{
    if s.len() > 0 {
        assert(all_digits(s.drop_last())) by {
            assert(forall|i: int|
                0 <= i < s.len() - 1 ==> is_digit(#[trigger] s.drop_last()[i]) && s.drop_last()[i]
                    == s[i]);
        }
        lemma_digits_val_nonneg(s.drop_last());
    }
}

/// The canonical digits of `n`, as bytes.
pub fn fmt_usize(n: usize) -> (r: Vec<u8>)
    ensures
        r@ == dec_rep(n as int),
    decreases n,
{
    if n < 10 {
        let mut v: Vec<u8> = Vec::new();
        v.push(48 + n as u8);
        assert(v@ =~= dec_rep(n as int));
        v
    } else {
        let mut v = fmt_usize(n / 10);
        v.push(48 + (n % 10) as u8);
        assert(v@ =~= dec_rep(n as int));
        v
    }
}

/// Whether a digit string denotes a value that fits in `usize`.
pub open spec fn digits_fit(s: Seq<u8>) -> bool {
    s.len() > 0 && all_digits(s) && digits_val(s) <= usize::MAX
}

/// Reads a decimal number, most significant digit first. Returns `None` when
/// the bytes are empty, hold a non-digit, or denote a value above
/// `usize::MAX`.
pub fn parse_usize(s: &[u8]) -> (r: Option<usize>)
    ensures
        digits_fit(s@) ==> r == Some((digits_val(s@) as usize)),
        !digits_fit(s@) ==> r is None,
{
    let n = s.len();
    if n == 0 {
        return None;
    }
    let mut acc: usize = 0;
    let mut i: usize = 0;
    while i < n
        invariant
            0 < n == s@.len(),
            0 <= i <= n,
            all_digits(s@.subrange(0, i as int)),
            acc == digits_val(s@.subrange(0, i as int)),
        decreases n - i,
    {
        let b = s[i];
        if b < 48 || b > 57 {
            assert(!all_digits(s@));
            return None;
        }
        let d = (b - 48) as usize;
        proof {
            let p = s@.subrange(0, i as int);
            let q = s@.subrange(0, i + 1int);
            assert(q =~= p.push(s@[i as int]));
            lemma_digits_val_push(p, s@[i as int]);
        }
        let step = match acc.checked_mul(10) {
            Some(m) => m.checked_add(d),
            None => None,
        };
        match step {
            Some(v) => {
                acc = v;
            },
            None => {
                proof {
                    if all_digits(s@) {
                        lemma_digits_val_prefix_le(s@, i + 1int);
                    }
                }
                return None;
            },
        }
        i = i + 1;
    }
    proof {
        assert(s@.subrange(0, n as int) =~= s@);
        lemma_digits_val_nonneg(s@);
    }
    Some(acc)
}

/// The byte the log uses to separate the fields of a record.
pub open spec fn is_comma(b: u8) -> bool {
    b == 44
}

pub open spec fn no_comma(s: Seq<u8>) -> bool {
    forall|i: int| 0 <= i < s.len() ==> !is_comma(#[trigger] s[i])
}

/// The index of the first comma at or after `from`, or the length when there
/// is none.
pub open spec fn first_comma(s: Seq<u8>, from: int) -> int
    decreases s.len() - from,
{
    if from < 0 || from >= s.len() {
        s.len() as int
    } else if is_comma(s[from]) {
        from
    } else {
        first_comma(s, from + 1)
    }
}

pub proof fn lemma_first_comma_props(s: Seq<u8>, from: int)
    requires
        0 <= from <= s.len(),
    ensures
        from <= first_comma(s, from) <= s.len(),
        first_comma(s, from) < s.len() ==> is_comma(s[first_comma(s, from)]),
        forall|j: int| from <= j < first_comma(s, from) ==> !is_comma(#[trigger] s[j]),
    decreases s.len() - from,
{
    if from < s.len() && !is_comma(s[from]) {
        lemma_first_comma_props(s, from + 1);
    }
}

/// Where the first comma falls, computed from what stands before it.
pub proof fn lemma_first_comma_at(s: Seq<u8>, from: int, at: int)
    requires
        0 <= from <= at <= s.len(),
        forall|j: int| from <= j < at ==> !is_comma(#[trigger] s[j]),
        at < s.len() ==> is_comma(s[at]),
    ensures
        first_comma(s, from) == at,
    decreases at - from,
{
    if from < at {
        lemma_first_comma_at(s, from + 1, at);
    }
}

/// One log line for the extent `(offset, size)` of `term`, without the
/// trailing newline.
pub open spec fn record_bytes(term: Seq<u8>, offset: int, size: int) -> Seq<u8> {
    term + seq![44u8] + dec_rep(offset) + seq![44u8] + dec_rep(size)
}

/// What a log line means: `Some((term, offset, size))` when the line has
/// exactly two commas and both numeric fields are decimal numbers that fit
/// in `usize`.
pub open spec fn parse_record_spec(line: Seq<u8>) -> Option<(Seq<u8>, usize, usize)> {
    let c1 = first_comma(line, 0);
    let c2 = first_comma(line, c1 + 1);
    if c1 == line.len() || c2 == line.len() || first_comma(line, c2 + 1) != line.len() {
        None
    } else {
        let f1 = line.subrange(c1 + 1, c2);
        let f2 = line.subrange(c2 + 1, line.len() as int);
        if digits_fit(f1) && digits_fit(f2) {
            Some((line.subrange(0, c1), digits_val(f1) as usize, digits_val(f2) as usize))
        } else {
            None
        }
    }
}

/// Finds the first comma at or after `from`; returns the length when there
/// is none.
fn find_comma(line: &[u8], from: usize) -> (r: usize)
    requires
        from <= line@.len(),
    ensures
        r == first_comma(line@, from as int),
{
    let n = line.len();
    let mut i = from;
    while i < n
        invariant
            from <= i <= n == line@.len(),
            forall|j: int| from <= j < i ==> !is_comma(#[trigger] line@[j]),
        decreases n - i,
    {
        if line[i] == 44 {
            proof {
                lemma_first_comma_at(line@, from as int, i as int);
            }
            return i;
        }
        i = i + 1;
    }
    proof {
        lemma_first_comma_at(line@, from as int, n as int);
    }
    n
}

/// Copies `line[lo..hi]` into an owned buffer.
pub(crate) fn copy_range(line: &[u8], lo: usize, hi: usize) -> (r: Vec<u8>)
    requires
        lo <= hi <= line@.len(),
    ensures
        r@ == line@.subrange(lo as int, hi as int),
{
    let mut v: Vec<u8> = Vec::new();
    let mut i = lo;
    while i < hi
        invariant
            lo <= i <= hi <= line@.len(),
            v@ =~= line@.subrange(lo as int, i as int),
        decreases hi - i,
    {
        v.push(line[i]);
        assert(v@ =~= line@.subrange(lo as int, i + 1int));
        i = i + 1;
    }
    v
}

/// Decodes one log line into `(term, offset, size)`; `None` for a line that
/// is not shaped `term,offset,size` with both numbers in range.
pub fn parse_record(line: &[u8]) -> (r: Option<(Vec<u8>, usize, usize)>)
    ensures
        match r {
            Some((t, o, s)) => parse_record_spec(line@) == Some((t@, o, s)),
            None => parse_record_spec(line@) is None,
        },
{
    let n = line.len();
    let c1 = find_comma(line, 0);
    if c1 == n {
        return None;
    }
    proof {
        lemma_first_comma_props(line@, 0);
    }
    let c2 = find_comma(line, c1 + 1);
    if c2 == n {
        return None;
    }
    proof {
        lemma_first_comma_props(line@, c1 + 1int);
    }
    let c3 = find_comma(line, c2 + 1);
    if c3 != n {
        return None;
    }
    let f1 = copy_range(line, c1 + 1, c2);
    let f2 = copy_range(line, c2 + 1, n);
    let o = match parse_usize(f1.as_slice()) {
        Some(o) => o,
        None => {
            return None;
        },
    };
    let s = match parse_usize(f2.as_slice()) {
        Some(s) => s,
        None => {
            return None;
        },
    };
    let term = copy_range(line, 0, c1);
    Some((term, o, s))
}

/// Encodes the record line for `(term, offset, size)`, newline excluded.
pub fn format_record(term: &[u8], offset: usize, size: usize) -> (r: Vec<u8>)
    ensures
        r@ == record_bytes(term@, offset as int, size as int),
{
    let mut v: Vec<u8> = Vec::new();
    let mut i: usize = 0;
    let n = term.len();
    while i < n
        invariant
            0 <= i <= n == term@.len(),
            v@ =~= term@.subrange(0, i as int),
        decreases n - i,
    {
        v.push(term[i]);
        assert(v@ =~= term@.subrange(0, i + 1int));
        i = i + 1;
    }
    assert(v@ =~= term@);
    v.push(44);
    let mut d1 = fmt_usize(offset);
    let mut j: usize = 0;
    let m1 = d1.len();
    while j < m1
        invariant
            0 <= j <= m1 == d1@.len(),
            v@ =~= term@ + seq![44u8] + d1@.subrange(0, j as int),
        decreases m1 - j,
    {
        let b = d1[j];
        v.push(b);
        assert(v@ =~= term@ + seq![44u8] + d1@.subrange(0, j + 1int));
        j = j + 1;
    }
    assert(v@ =~= term@ + seq![44u8] + d1@);
    v.push(44);
    let d2 = fmt_usize(size);
    let mut k: usize = 0;
    let m2 = d2.len();
    while k < m2
        invariant
            0 <= k <= m2 == d2@.len(),
            v@ =~= term@ + seq![44u8] + d1@ + seq![44u8] + d2@.subrange(0, k as int),
        decreases m2 - k,
    {
        let b = d2[k];
        v.push(b);
        assert(v@ =~= term@ + seq![44u8] + d1@ + seq![44u8] + d2@.subrange(0, k + 1int));
        k = k + 1;
    }
    assert(v@ =~= record_bytes(term@, offset as int, size as int));
    v
}

/// Decoding inverts encoding: a record line written for a comma-free term
/// reads back as exactly that term and extent.
pub proof fn lemma_record_round_trip(term: Seq<u8>, offset: usize, size: usize)
    requires
        no_comma(term),
    ensures
        parse_record_spec(record_bytes(term, offset as int, size as int)) == Some(
            (term, offset, size),
        ),
{
    let line = record_bytes(term, offset as int, size as int);
    let d1 = dec_rep(offset as int);
    let d2 = dec_rep(size as int);
    lemma_dec_rep_digits(offset as int);
    lemma_dec_rep_digits(size as int);
    let t = term.len() as int;
    let c2 = t + 1 + d1.len() as int;
    assert forall|j: int| 0 <= j < t implies !is_comma(#[trigger] line[j]) by {
        assert(line[j] == term[j]);
    }
    assert(is_comma(line[t]));
    lemma_first_comma_at(line, 0, t);
    assert forall|j: int| t + 1 <= j < c2 implies !is_comma(#[trigger] line[j]) by {
        assert(line[j] == d1[j - (t + 1)]);
        assert(is_digit(d1[j - (t + 1)]));
    }
    assert(is_comma(line[c2]));
    lemma_first_comma_at(line, t + 1, c2);
    assert forall|j: int| c2 + 1 <= j < line.len() implies !is_comma(#[trigger] line[j]) by {
        assert(line[j] == d2[j - (c2 + 1)]);
        assert(is_digit(d2[j - (c2 + 1)]));
    }
    lemma_first_comma_at(line, c2 + 1, line.len() as int);
    assert(line.subrange(0, t) =~= term);
    assert(line.subrange(t + 1, c2) =~= d1);
    assert(line.subrange(c2 + 1, line.len() as int) =~= d2);
}

/// A record line never holds a newline when its term holds none, so the log
/// stores each record on one line of its own.
pub proof fn lemma_record_no_newline(term: Seq<u8>, offset: usize, size: usize)
    requires
        forall|i: int| 0 <= i < term.len() ==> #[trigger] term[i] != 10,
    ensures
        forall|i: int|
            0 <= i < record_bytes(term, offset as int, size as int).len()
                ==> #[trigger] record_bytes(term, offset as int, size as int)[i] != 10,
{
    let line = record_bytes(term, offset as int, size as int);
    let d1 = dec_rep(offset as int);
    let d2 = dec_rep(size as int);
    lemma_dec_rep_digits(offset as int);
    lemma_dec_rep_digits(size as int);
    let t = term.len() as int;
    let c2 = t + 1 + d1.len() as int;
    assert forall|i: int| 0 <= i < line.len() implies #[trigger] line[i] != 10 by {
        if i < t {
            assert(line[i] == term[i]);
        } else if i == t || i == c2 {
            assert(line[i] == 44);
        } else if i < c2 {
            assert(line[i] == d1[i - (t + 1)]);
            assert(is_digit(d1[i - (t + 1)]));
        } else {
            assert(line[i] == d2[i - (c2 + 1)]);
            assert(is_digit(d2[i - (c2 + 1)]));
        }
    }
}

} // verus!
