//! The bit-path view: a half-open range of bits over a borrowed byte buffer.
use vstd::prelude::*;
use vstd::slice::slice_subrange;
use core::ops::Range;
use crate::BitsLen;
use crate::Result;
use crate::utils::{bit, bit_at, be16, be16_bytes, bytes_to_int, int_to_bytes, offsets, len_lcp,
    common_prefix_len, is_prefix, lemma_common_prefix, lemma_bit_at_subrange, lemma_be16_roundtrip};

verus! {

/// A contiguous range of bits `[range.start, range.end)` over `path`.
/// Bits are numbered from the most significant bit of the first byte.
#[derive(Debug, PartialEq)]
pub struct Bits<'a> {
    pub path: &'a [u8],
    pub range: Range<BitsLen>,
}

/// What a `Bits` value holds: the buffer's bytes and the two ends of the range.
pub struct BitsView {
    pub path: Seq<u8>,
    pub start: int,
    pub end: int,
}

impl BitsView {
    /// The range lies inside the buffer and its ends fit the index type.
    pub open spec fn wf(self) -> bool {
        0 <= self.start <= self.end <= 8 * self.path.len() && self.end <= BitsLen::MAX
    }

    /// The buffer begins at the byte that holds the first bit and ends at the
    /// byte that holds the last one. The range may be empty.
    pub open spec fn packed(self) -> bool {
        &&& 0 <= self.start < 8
        &&& self.start <= self.end <= BitsLen::MAX
        &&& self.path.len() == (self.end + 7) / 8
    }

    /// The view is packed and the range is not empty.
    pub open spec fn tight(self) -> bool {
        self.packed() && self.start < self.end
    }

    pub open spec fn len(self) -> int {
        self.end - self.start
    }

    pub open spec fn first(self) -> bool {
        bit_at(self.path, self.start)
    }

    /// The bits of the range, in order.
    pub open spec fn bits(self) -> Seq<bool> {
        Seq::new(self.len() as nat, |i: int| bit_at(self.path, self.start + i))
    }

    /// The view after dropping `n` bits from the head (`tail == false`), or
    /// after keeping only the first `n` bits (`tail == true`).
    pub open spec fn shift(self, n: int, tail: bool) -> BitsView {
        let x = self.start + n;
        if tail {
            BitsView { path: self.path.subrange(0, (x + 7) / 8), start: self.start, end: x }
        } else {
            BitsView {
                path: self.path.subrange(x / 8, self.path.len() as int),
                start: x % 8,
                end: self.end - 8 * (x / 8),
            }
        }
    }

    /// The serialized form: both ends as big-endian integers, then the buffer.
    pub open spec fn to_bytes(self) -> Seq<u8> {
        be16_bytes(self.start) + be16_bytes(self.end) + self.path
    }

    /// The view that `bytes` deserializes to.
    pub open spec fn from_bytes(bytes: Seq<u8>) -> BitsView {
        BitsView {
            path: bytes.subrange(4, bytes.len() as int),
            start: be16(bytes.subrange(0, 2)),
            end: be16(bytes.subrange(2, 4)),
        }
    }
}

impl<'a> View for Bits<'a> {
    type V = BitsView;

    open spec fn view(&self) -> BitsView {
        BitsView { path: self.path@, start: self.range.start as int, end: self.range.end as int }
    }
}

impl<'a> Clone for Bits<'a> {
    fn clone(&self) -> (r: Self)
        ensures
            r == *self,
    {
        Bits { path: self.path, range: self.range.start..self.range.end }
    }
}

impl<'a> Bits<'a> {
    /// A view of all the bits of `bytes`.
    pub fn new(bytes: &'a [u8]) -> (r: Self)
        requires
            bytes@.len() * 8 <= BitsLen::MAX,
        ensures
            r@ == (BitsView { path: bytes@, start: 0, end: 8 * (bytes@.len() as int) }),
    {
        Bits { path: bytes, range: 0..(bytes.len() as BitsLen * 8) }
    }

    /// Reads a view back from its serialized form; the view borrows `bytes`.
    pub fn from_bytes(bytes: &'a [u8]) -> (r: Self)
        requires
            bytes@.len() >= 4,
        ensures
            r@ == BitsView::from_bytes(bytes@),
    {
        let start: BitsLen = bytes_to_int(slice_subrange(bytes, 0, 2));
        let end: BitsLen = bytes_to_int(slice_subrange(bytes, 2, 4));
        Bits { path: slice_subrange(bytes, 4, bytes.len()), range: start..end }
    }

    /// Serializes the two ends of the range and the whole buffer.
    pub fn to_bytes(&self) -> (r: Result<Vec<u8>>)
        ensures
            r is Ok,
            r->Ok_0@ == self@.to_bytes(),
    {
        let s = int_to_bytes(self.range.start);
        let e = int_to_bytes(self.range.end);
        let mut out: Vec<u8> = Vec::new();
        out.push(s[0]);
        out.push(s[1]);
        out.push(e[0]);
        out.push(e[1]);
        out.extend_from_slice(self.path);
        assert(out@ =~= self@.to_bytes());
        Ok(out)
    }

    /// The first bit of the range.
    pub fn first(&self) -> (b: bool)
        requires
            self@.start / 8 < self@.path.len(),
        ensures
            b == self@.first(),
    {
        bit(self.path, self.range.start)
    }

    /// The number of bits in the range.
    pub fn len(&self) -> (n: BitsLen)
        requires
            self@.start <= self@.end,
        ensures
            n == self@.len(),
    {
        self.range.end - self.range.start
    }

    /// Whether the range holds no bit or the buffer no byte.
    pub fn is_empty(&self) -> (b: bool)
        requires
            self@.start <= self@.end,
        ensures
            b == (self@.len() == 0 || self@.path.len() == 0),
    {
        self.len() == 0 || self.path.len() == 0
    }

    /// Drops `n` bits from the head, or keeps only the first `n` bits when
    /// `tail` is set. The buffer is cut to the bytes that the new range needs.
    #[verifier::rlimit(30)]
    pub fn shift(&self, n: BitsLen, tail: bool) -> (r: Self)
        requires
            self@.wf(),
            n <= self@.len(),
        ensures
            r@ == self@.shift(n as int, tail),
            r@.wf(),
            r@.bits() == (if tail {
                self@.bits().take(n as int)
            } else {
                self@.bits().skip(n as int)
            }),
    {
        let (q, range) = offsets(&self.range, n, tail);
        proof {
            lemma_shift_bits(self@, n as int, tail);
        }
        if tail {
            Bits { path: slice_subrange(self.path, 0, q as usize), range }
        } else {
            Bits { path: slice_subrange(self.path, q as usize, self.path.len()), range }
        }
    }

    /// The length of the longest common prefix of two bit ranges.
    pub fn len_common_bits(a: &Self, b: &Self) -> (n: BitsLen)
        requires
            a@.wf(),
            b@.wf(),
        ensures
            n == common_prefix_len(a@.bits(), b@.bits()),
            n <= a@.len(),
            n <= b@.len(),
            n == a@.len() <==> is_prefix(a@.bits(), b@.bits()),
            n == b@.len() <==> is_prefix(b@.bits(), a@.bits()),
    {
        proof {
            lemma_common_prefix(a@.bits(), b@.bits());
        }
        len_lcp(a.path, &a.range, b.path, &b.range)
    }
}

/// A shifted view is well formed and holds the expected bits.
#[verifier::rlimit(30)]
pub proof fn lemma_shift_bits(v: BitsView, n: int, tail: bool)
    requires
        v.wf(),
        0 <= n <= v.len(),
    ensures
        v.shift(n, tail).wf(),
        v.shift(n, tail).bits() == (if tail {
            v.bits().take(n)
        } else {
            v.bits().skip(n)
        }),
        v.shift(n, tail).len() == (if tail {
            n
        } else {
            v.len() - n
        }),
{
    let s = v.shift(n, tail);
    let x = v.start + n;
    if tail {
        assert forall|i: int| 0 <= i < n implies s.bits()[i] == v.bits()[i] by {
            lemma_bit_at_subrange(v.path, 0, (x + 7) / 8, v.start + i);
        }
        assert(s.bits() =~= v.bits().take(n));
    } else {
        let q = x / 8;
        assert forall|i: int| 0 <= i < v.len() - n implies s.bits()[i] == v.bits()[n + i] by {
            lemma_bit_at_subrange(v.path, q, v.path.len() as int, x % 8 + i);
        }
        assert(s.bits() =~= v.bits().skip(n));
    }
}

/// Shifting keeps a tight view tight, as long as some bit is left.
pub proof fn lemma_shift_tight(v: BitsView, n: int, tail: bool)
    requires
        v.tight(),
        0 <= n <= v.len(),
        tail ==> n > 0,
        !tail ==> n < v.len(),
    ensures
        v.shift(n, tail).tight(),
{
}

/// Deserializing a serialized view gives the view back.
pub proof fn lemma_bits_roundtrip(v: BitsView)
    requires
        0 <= v.start <= BitsLen::MAX,
        0 <= v.end <= BitsLen::MAX,
    ensures
        BitsView::from_bytes(v.to_bytes()) == v,
{
    let b = v.to_bytes();
    lemma_be16_roundtrip(v.start);
    lemma_be16_roundtrip(v.end);
    assert(b.subrange(0, 2) =~= be16_bytes(v.start));
    assert(b.subrange(2, 4) =~= be16_bytes(v.end));
    assert(b.subrange(4, b.len() as int) =~= v.path);
}

} // verus!
