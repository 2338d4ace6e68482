//! Bit indexing and byte-range arithmetic shared by the other modules.
use vstd::prelude::*;
use core::ops::Range;
use crate::BitsLen;

verus! {

/// The bit of `bytes` at index `i`, counting from the most significant bit
/// of the first byte.
pub open spec fn bit_at(bytes: Seq<u8>, i: int) -> bool {
    (bytes[i / 8] >> ((7 - i % 8) as u8)) & 1u8 == 1u8
}

/// Number of whole bytes that the bit range `[start, end)` touches, counted
/// from the byte that holds bit `start`.
pub open spec fn byte_span(start: int, end: int) -> int {
    (end + 7) / 8 - start / 8
}

/// The value of a two-byte big-endian integer.
pub open spec fn be16(bytes: Seq<u8>) -> int {
    bytes[0] as int * 256 + bytes[1] as int
}

/// The two-byte big-endian form of `x`.
pub open spec fn be16_bytes(x: int) -> Seq<u8> {
    seq![(x / 256) as u8, (x % 256) as u8]
}

/// Reads bit `i` of `bytes`, most significant bit first.
pub fn bit(bytes: &[u8], i: BitsLen) -> (b: bool)
    requires
        (i as int) / 8 < bytes@.len(),
    ensures
        b == bit_at(bytes@, i as int),
{
    let q: usize = (i / 8) as usize;
    let r: u8 = (i % 8) as u8;
    (bytes[q] >> (7 - r)) & 0x01 == 0x01
}

/// Counts the bytes spanned by the bit range `[start, end)`.
pub fn nbytes_across(start: BitsLen, end: BitsLen) -> (n: BitsLen)
    requires
        start - start % 8 <= end,
    ensures
        n == byte_span(start as int, end as int),
{
    let n: BitsLen = (end - (start - start % 8)) / 8;
    if end % 8 == 0 {
        n
    } else {
        n + 1
    }
}

/// Decodes a two-byte big-endian integer.
pub fn bytes_to_int(bytes: &[u8]) -> (x: BitsLen)
    requires
        bytes@.len() == 2,
    ensures
        x == be16(bytes@),
{
    (bytes[0] as BitsLen) * 256 + (bytes[1] as BitsLen)
}

/// Encodes `x` as two big-endian bytes.
pub fn int_to_bytes(x: BitsLen) -> (bytes: [u8; 2])
    ensures
        bytes@ == be16_bytes(x as int),
{
    let bytes: [u8; 2] = [(x / 256) as u8, (x % 256) as u8];
    assert(bytes@ =~= be16_bytes(x as int));
    bytes
}

/// Copies a 32-byte slice into a `Hash`.
pub fn slice_to_hash(slice: &[u8]) -> (hash: crate::Hash)
    requires
        slice@.len() == 32,
    ensures
        hash@ == slice@,
{
    let mut hash: crate::Hash = [0u8; 32];
    let mut i: usize = 0;
    while i < 32
        invariant
            i <= 32,
            slice@.len() == 32,
            forall|j: int| 0 <= j < i ==> hash@[j] == slice@[j],
        decreases 32 - i,
    {
        hash[i] = slice[i];
        i += 1;
    }
    assert(hash@ =~= slice@);
    hash
}

/// Whether two byte strings are equal.
pub fn bytes_eq(a: &[u8], b: &[u8]) -> (same: bool)
    ensures
        same == (a@ == b@),
{
    if a.len() != b.len() {
        return false;
    }
    let mut i: usize = 0;
    while i < a.len()
        invariant
            i <= a@.len(),
            a@.len() == b@.len(),
            forall|j: int| 0 <= j < i ==> a@[j] == b@[j],
        decreases a@.len() - i,
    {
        if a[i] != b[i] {
            return false;
        }
        i += 1;
    }
    assert(a@ =~= b@);
    true
}

/// How a range and its buffer move when the view is shifted by `n` bits:
/// the number of bytes to cut the buffer at, and the new range.
pub fn offsets(range: &Range<BitsLen>, n: BitsLen, tail: bool) -> (r: (BitsLen, Range<BitsLen>))
    requires
        range.start + n <= range.end,
    ensures
        ({
            let x = range.start + n;
            if tail {
                r.0 == (x + 7) / 8 && r.1.start == range.start && r.1.end == x
            } else {
                r.0 == x / 8 && r.1.start == x % 8 && r.1.end == range.end - 8 * (x / 8)
            }
        }),
{
    let x: BitsLen = range.start + n;
    if tail {
        (nbytes_across(0, x), range.start..x)
    } else {
        (x / 8, (x % 8)..(range.end - 8 * (x / 8)))
    }
}

/// Length of the longest common prefix of `a` and `b`, counted from index `i`
/// on, given that they agree before `i`.
pub open spec fn common_prefix_from(a: Seq<bool>, b: Seq<bool>, i: int) -> int
    decreases a.len() - i,
{
    if 0 <= i < a.len() && i < b.len() && a[i] == b[i] {
        common_prefix_from(a, b, i + 1)
    } else {
        i
    }
}

/// Length of the longest common prefix of two bit sequences.
pub open spec fn common_prefix_len(a: Seq<bool>, b: Seq<bool>) -> int {
    common_prefix_from(a, b, 0)
}

/// `a` is a prefix of `b`.
pub open spec fn is_prefix(a: Seq<bool>, b: Seq<bool>) -> bool {
    a.len() <= b.len() && a =~= b.take(a.len() as int)
}

/// Counts the leading bits on which two bit ranges agree.
#[verifier::rlimit(30)]
pub fn len_lcp(a: &[u8], m: &Range<BitsLen>, b: &[u8], n: &Range<BitsLen>) -> (count: BitsLen)
    requires
        m.start <= m.end <= 8 * a@.len(),
        n.start <= n.end <= 8 * b@.len(),
    ensures
        count == common_prefix_len(
            Seq::new((m.end - m.start) as nat, |i: int| bit_at(a@, m.start + i)),
            Seq::new((n.end - n.start) as nat, |i: int| bit_at(b@, n.start + i)),
        ),
{
    let ghost sa = Seq::new((m.end - m.start) as nat, |i: int| bit_at(a@, m.start + i));
    let ghost sb = Seq::new((n.end - n.start) as nat, |i: int| bit_at(b@, n.start + i));
    let mut count: BitsLen = 0;
    let mut i: BitsLen = m.start;
    let mut j: BitsLen = n.start;
    let mut agree: bool = true;
    while agree && i < m.end && j < n.end
        invariant
            m.start <= m.end <= 8 * a@.len(),
            n.start <= n.end <= 8 * b@.len(),
            i == m.start + count,
            j == n.start + count,
            i <= m.end,
            j <= n.end,
            sa == Seq::new((m.end - m.start) as nat, |i: int| bit_at(a@, m.start + i)),
            sb == Seq::new((n.end - n.start) as nat, |i: int| bit_at(b@, n.start + i)),
            common_prefix_len(sa, sb) == common_prefix_from(sa, sb, count as int),
            !agree ==> common_prefix_from(sa, sb, count as int) == count,
        decreases (if agree { 1int } else { 0int }) + m.end - i,
    {
        if bit(a, i) != bit(b, j) {
            assert(sa[count as int] != sb[count as int]);
            agree = false;
        } else {
            assert(sa[count as int] == sb[count as int]);
            count += 1;
            i += 1;
            j += 1;
        }
    }
    assert(common_prefix_from(sa, sb, count as int) == count);
    count
}

/// What the longest common prefix is: the two sequences agree on that many
/// bits and, unless one of them ends there, differ at the next one.
pub proof fn lemma_common_prefix(a: Seq<bool>, b: Seq<bool>)
    ensures
        0 <= common_prefix_len(a, b) <= a.len(),
        common_prefix_len(a, b) <= b.len(),
        forall|i: int| 0 <= i < common_prefix_len(a, b) ==> a[i] == b[i],
        common_prefix_len(a, b) < a.len() && common_prefix_len(a, b) < b.len() ==> a[common_prefix_len(
            a,
            b,
        )] != b[common_prefix_len(a, b)],
        common_prefix_len(a, b) == a.len() <==> is_prefix(a, b),
        common_prefix_len(a, b) == b.len() <==> is_prefix(b, a),
{
    lemma_common_prefix_from(a, b, 0);
}

proof fn lemma_common_prefix_from(a: Seq<bool>, b: Seq<bool>, i: int)
    requires
        0 <= i <= a.len(),
        i <= b.len(),
        forall|k: int| 0 <= k < i ==> a[k] == b[k],
    ensures
        i <= common_prefix_from(a, b, i) <= a.len(),
        common_prefix_from(a, b, i) <= b.len(),
        forall|k: int| 0 <= k < common_prefix_from(a, b, i) ==> a[k] == b[k],
        common_prefix_from(a, b, i) < a.len() && common_prefix_from(a, b, i) < b.len()
            ==> a[common_prefix_from(a, b, i)] != b[common_prefix_from(a, b, i)],
        common_prefix_from(a, b, i) == a.len() <==> is_prefix(a, b),
        common_prefix_from(a, b, i) == b.len() <==> is_prefix(b, a),
    decreases a.len() - i,
{
    if i < a.len() && i < b.len() && a[i] == b[i] {
        lemma_common_prefix_from(a, b, i + 1);
    } else {
        let n = i;
        if n == a.len() {
            assert(a =~= b.take(a.len() as int));
        } else if is_prefix(a, b) {
            assert(b.take(a.len() as int)[n] == b[n]);
        }
        if n == b.len() {
            assert(b =~= a.take(b.len() as int));
        } else if is_prefix(b, a) {
            assert(a.take(b.len() as int)[n] == a[n]);
        }
    }
}

/// A bit of a sub-buffer is the bit of the buffer at the shifted index.
pub proof fn lemma_bit_at_subrange(bytes: Seq<u8>, from: int, to: int, i: int)
    requires
        0 <= from <= to <= bytes.len(),
        0 <= i < 8 * (to - from),
    ensures
        bit_at(bytes.subrange(from, to), i) == bit_at(bytes, 8 * from + i),
{
    assert((8 * from + i) / 8 == from + i / 8);
    assert((8 * from + i) % 8 == i % 8);
}

/// Decoding the big-endian form of a 16-bit integer gives it back.
pub proof fn lemma_be16_roundtrip(x: int)
    requires
        0 <= x <= BitsLen::MAX,
    ensures
        be16(be16_bytes(x)) == x,
        be16_bytes(x).len() == 2,
{
}

} // verus!
