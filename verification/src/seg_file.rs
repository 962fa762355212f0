//! An in-memory image of the segment file. The page cache reads and writes
//! this image; the surrounding program moves the image to and from the real
//! file when a store is opened or closed. Reads past the end yield zeros,
//! as a fresh region of a sparse file does, and writes past the end grow
//! the image.

use vstd::prelude::*;

verus! {

/// The byte a file image yields at `addr`: the stored byte inside the image,
/// zero past its end.
pub open spec fn byte_at(file: Seq<u8>, addr: int) -> u8 {
    if 0 <= addr < file.len() {
        file[addr]
    } else {
        0
    }
}

/// The `size` bytes a file image yields starting at `offset`.
pub open spec fn range_at(file: Seq<u8>, offset: int, size: int) -> Seq<u8> {
    Seq::new(if size >= 0 {
        size as nat
    } else {
        0
    }, |i: int| byte_at(file, offset + i))
}

pub struct SegmentFile {
    data: Vec<u8>,
}

impl View for SegmentFile {
    type V = Seq<u8>;

    closed spec fn view(&self) -> Seq<u8> {
        self.data@
    }
}

/// Writes one byte of a buffer in place.
pub(crate) fn set_byte(v: &mut Vec<u8>, i: usize, b: u8)
    requires
        i < old(v)@.len(),
    ensures
        final(v)@ == old(v)@.update(i as int, b),
{
    let r = &mut v[i];
    *r = b;
}

impl SegmentFile {
    pub fn new(bytes: Vec<u8>) -> (r: Self)
        ensures
            r@ == bytes@,
    {
        SegmentFile { data: bytes }
    }

    pub fn into_bytes(self) -> (r: Vec<u8>)
        ensures
            r@ == self@,
    {
        self.data
    }

    pub fn len(&self) -> (r: usize)
        ensures
            r == self@.len(),
    {
        self.data.len()
    }

    /// A copy of the bytes at `[offset, offset + size)`, zeros where the
    /// image ends early.
    pub fn read_range(&self, offset: usize, size: usize) -> (r: Vec<u8>)
        requires
            offset + size <= usize::MAX,
        ensures
            r@ == range_at(self@, offset as int, size as int),
    {
        let mut r: Vec<u8> = Vec::new();
        let mut i: usize = 0;
        let n = self.data.len();
        while i < size
            invariant
                0 <= i <= size,
                offset + size <= usize::MAX,
                n == self@.len(),
                r@.len() == i,
                forall|j: int| 0 <= j < i ==> r@[j] == byte_at(self@, offset + j),
            decreases size - i,
        {
            if offset + i < n {
                r.push(self.data[offset + i]);
            } else {
                r.push(0);
            }
            i = i + 1;
        }
        proof {
            assert(r@ =~= range_at(self@, offset as int, size as int));
        }
        r
    }

    /// Overwrites the bytes at `[offset, offset + bytes.len())`, growing the
    /// image with zeros first when it ends before `offset`.
    pub fn write_range(&mut self, offset: usize, bytes: &[u8])
        requires
            offset + bytes@.len() <= usize::MAX,
        ensures
            final(self)@.len() == if offset + bytes@.len() > old(self)@.len() {
                offset + bytes@.len()
            } else {
                old(self)@.len() as int
            },
            forall|a: int|
                byte_at(final(self)@, a) == if offset <= a < offset + bytes@.len() {
                    bytes@[a - offset]
                } else {
                    byte_at(old(self)@, a)
                },
    {
        let end = offset + bytes.len();
        while self.data.len() < end
            invariant
                self@.len() >= old(self)@.len(),
                self@.len() == old(self)@.len() || self@.len() <= end,
                forall|a: int| #![trigger byte_at(self@, a)]
                    byte_at(self@, a) == byte_at(old(self)@, a),
                end <= usize::MAX,
            decreases end - self@.len(),
        {
            let ghost prev = self@;
            self.data.push(0);
            proof {
                assert forall|a: int| byte_at(self@, a) == byte_at(old(self)@, a) by {
                    if 0 <= a < prev.len() {
                        assert(self@[a] == prev[a]);
                        assert(byte_at(prev, a) == byte_at(old(self)@, a));
                    } else if a == prev.len() {
                        assert(self@[a] == 0);
                        assert(byte_at(old(self)@, a) == 0);
                    }
                }
            }
        }
        let ghost padded = self@;
        let mut i: usize = 0;
        let n = bytes.len();
        while i < n
            invariant
                0 <= i <= n == bytes@.len(),
                offset + n <= usize::MAX,
                self@.len() == padded.len() >= end == offset + n,
                forall|a: int|
                    0 <= a < self@.len() ==> #[trigger] self@[a] == if offset <= a < offset + i {
                        bytes@[a - offset]
                    } else {
                        padded[a]
                    },
            decreases n - i,
        {
            set_byte(&mut self.data, offset + i, bytes[i]);
            i = i + 1;
        }
        proof {
            assert forall|a: int|
                byte_at(self@, a) == (if offset <= a < offset + bytes@.len() {
                    bytes@[a - offset]
                } else {
                    byte_at(old(self)@, a)
                }) by {
                if offset <= a < offset + n {
                    assert(a < self@.len());
                    assert(self@[a] == bytes@[a - offset]);
                } else if 0 <= a < self@.len() {
                    assert(self@[a] == padded[a]);
                    assert(byte_at(padded, a) == byte_at(old(self)@, a));
                } else {
                    assert(byte_at(self@, a) == 0);
                    if a >= self@.len() {
                        assert(a >= old(self)@.len());
                        assert(byte_at(old(self)@, a) == 0);
                    }
                }
            }
        }
    }
}

} // verus!
