//! The order in which a batch visits its keys: ascending by key, byte by
//! byte, and by position among equal keys.
use vstd::prelude::*;

verus! {

/// `a` comes before `b` byte by byte: at the first index where they differ,
/// `a` holds the smaller byte. Meant for byte strings of one length.
pub open spec fn lex_lt(a: Seq<u8>, b: Seq<u8>) -> bool {
    exists|k: int| differ_at(a, b, k) && a[k] < b[k]
}

/// `k` is the first index at which `a` and `b` differ.
pub open spec fn differ_at(a: Seq<u8>, b: Seq<u8>, k: int) -> bool {
    &&& 0 <= k < a.len()
    &&& k < b.len()
    &&& a[k] != b[k]
    &&& forall|j: int| 0 <= j < k ==> a[j] == b[j]
}

/// In a batch over `keys`, position `a` is visited before position `b`.
pub open spec fn precedes(keys: Seq<Seq<u8>>, a: int, b: int) -> bool {
    lex_lt(keys[a], keys[b]) || (keys[a] == keys[b] && a < b)
}

/// `order` lists every position of `keys` once, in the order of visit.
pub open spec fn is_sorted_order(keys: Seq<Seq<u8>>, order: Seq<int>) -> bool {
    &&& order.len() == keys.len()
    &&& forall|i: int| 0 <= i < order.len() ==> 0 <= #[trigger] order[i] < keys.len()
    &&& forall|k: int| 0 <= k < keys.len() ==> #[trigger] order.contains(k)
    &&& forall|i: int, j: int|
        0 <= i < j < order.len() ==> precedes(keys, #[trigger] order[i], #[trigger] order[j])
}

/// The order of visit of a batch over `keys`.
pub open spec fn sorted_order(keys: Seq<Seq<u8>>) -> Seq<int> {
    choose|order: Seq<int>| is_sorted_order(keys, order)
}

/// All keys have the same length.
pub open spec fn same_length(keys: Seq<Seq<u8>>) -> bool {
    forall|i: int, j: int|
        0 <= i < keys.len() && 0 <= j < keys.len() ==> (#[trigger] keys[i]).len() == (
        #[trigger] keys[j]).len()
}

/// What a slice of hashes holds.
pub open spec fn hashes_view(hashes: Seq<crate::Hash>) -> Seq<Seq<u8>> {
    Seq::new(hashes.len(), |i: int| hashes[i]@)
}

/// What a vector of positions holds.
pub open spec fn indices_view(indices: Seq<usize>) -> Seq<int> {
    Seq::new(indices.len(), |i: int| indices[i] as int)
}

/// Two byte strings of one length that agree up to `i` are equal or differ
/// at a first index.
proof fn lemma_first_difference(a: Seq<u8>, b: Seq<u8>, i: int)
    requires
        a.len() == b.len(),
        0 <= i <= a.len(),
        forall|j: int| 0 <= j < i ==> a[j] == b[j],
    ensures
        a == b || exists|k: int| differ_at(a, b, k),
    decreases a.len() - i,
{
    if i == a.len() {
        assert(a =~= b);
    } else if a[i] != b[i] {
        assert(differ_at(a, b, i));
    } else {
        lemma_first_difference(a, b, i + 1);
    }
}

/// Two byte strings differ first at one index only.
proof fn lemma_differ_once(a: Seq<u8>, b: Seq<u8>, k: int, m: int)
    requires
        differ_at(a, b, k),
        differ_at(a, b, m),
    ensures
        k == m,
{
}

/// Of two different byte strings of one length, one comes before the other.
pub proof fn lemma_lex_total(a: Seq<u8>, b: Seq<u8>)
    requires
        a.len() == b.len(),
    ensures
        a == b || lex_lt(a, b) || lex_lt(b, a),
{
    lemma_first_difference(a, b, 0);
    if a != b {
        let k = choose|k: int| differ_at(a, b, k);
        assert(differ_at(b, a, k));
    }
}

/// No byte string comes before itself, and no two come before each other.
pub proof fn lemma_lex_asymmetric(a: Seq<u8>, b: Seq<u8>)
    ensures
        !(lex_lt(a, b) && lex_lt(b, a)),
        lex_lt(a, b) ==> a != b,
{
    if lex_lt(a, b) && lex_lt(b, a) {
        let k = choose|k: int| differ_at(a, b, k) && a[k] < b[k];
        let m = choose|m: int| differ_at(b, a, m) && b[m] < a[m];
        assert(differ_at(a, b, m));
        lemma_differ_once(a, b, k, m);
    }
}

/// Coming before is transitive.
pub proof fn lemma_lex_transitive(a: Seq<u8>, b: Seq<u8>, c: Seq<u8>)
    requires
        lex_lt(a, b),
        lex_lt(b, c),
    ensures
        lex_lt(a, c),
{
    let k = choose|k: int| differ_at(a, b, k) && a[k] < b[k];
    let m = choose|m: int| differ_at(b, c, m) && b[m] < c[m];
    let n = if k <= m {
        k
    } else {
        m
    };
    assert(differ_at(a, c, n));
}

/// The order of visit is a strict total order on the positions of keys of
/// one length.
#[verifier::rlimit(30)]
pub proof fn lemma_precedes_order(keys: Seq<Seq<u8>>, a: int, b: int, c: int)
    requires
        same_length(keys),
        0 <= a < keys.len(),
        0 <= b < keys.len(),
        0 <= c < keys.len(),
    ensures
        !precedes(keys, a, a),
        a != b ==> precedes(keys, a, b) || precedes(keys, b, a),
        !(precedes(keys, a, b) && precedes(keys, b, a)),
        precedes(keys, a, b) && precedes(keys, b, c) ==> precedes(keys, a, c),
{
    lemma_lex_asymmetric(keys[a], keys[a]);
    lemma_lex_asymmetric(keys[a], keys[b]);
    lemma_lex_asymmetric(keys[b], keys[c]);
    lemma_lex_asymmetric(keys[b], keys[a]);
    lemma_lex_total(keys[a], keys[b]);
    if precedes(keys, a, b) && precedes(keys, b, c) {
        if lex_lt(keys[a], keys[b]) && lex_lt(keys[b], keys[c]) {
            lemma_lex_transitive(keys[a], keys[b], keys[c]);
        }
    }
}

/// There is only one order of visit.
#[verifier::rlimit(30)]
pub proof fn lemma_sorted_order_unique(keys: Seq<Seq<u8>>, x: Seq<int>, y: Seq<int>)
    requires
        same_length(keys),
        is_sorted_order(keys, x),
        is_sorted_order(keys, y),
    ensures
        x == y,
{
    if x != y {
        lemma_first_mismatch(x, y, 0);
        let i = choose|i: int| mismatch_at(x, y, i);
        let a = x[i];
        let b = y[i];
        lemma_precedes_order(keys, a, b, a);
        if precedes(keys, a, b) {
            lemma_misplaced(keys, x, y, i);
        } else {
            lemma_first_mismatch(y, x, 0);
            assert(mismatch_at(y, x, i));
            lemma_misplaced(keys, y, x, i);
        }
    }
}

/// `i` is the first index at which `x` and `y` differ.
spec fn mismatch_at(x: Seq<int>, y: Seq<int>, i: int) -> bool {
    &&& 0 <= i < x.len()
    &&& x[i] != y[i]
    &&& forall|j: int| 0 <= j < i ==> x[j] == y[j]
}

proof fn lemma_first_mismatch(x: Seq<int>, y: Seq<int>, i: int)
    requires
        x.len() == y.len(),
        0 <= i <= x.len(),
        forall|j: int| 0 <= j < i ==> x[j] == y[j],
    ensures
        x == y || exists|k: int| mismatch_at(x, y, k),
    decreases x.len() - i,
{
    if i == x.len() {
        assert(x =~= y);
    } else if x[i] != y[i] {
        assert(mismatch_at(x, y, i));
    } else {
        lemma_first_mismatch(x, y, i + 1);
    }
}

/// Where two orders of visit differ first, the position of the first does
/// not come before that of the second: the second would have to visit that
/// position somewhere, and has no place for it.
#[verifier::rlimit(30)]
proof fn lemma_misplaced(keys: Seq<Seq<u8>>, x: Seq<int>, y: Seq<int>, i: int)
    requires
        same_length(keys),
        is_sorted_order(keys, x),
        is_sorted_order(keys, y),
        mismatch_at(x, y, i),
    ensures
        !precedes(keys, x[i], y[i]),
{
    let a = x[i];
    assert(y.contains(a));
    let j = choose|j: int| 0 <= j < y.len() && y[j] == a;
    if j < i {
        assert(x[j] == a);
        assert(precedes(keys, x[j], x[i]));
        lemma_precedes_order(keys, a, a, a);
    } else {
        assert(precedes(keys, y[i], y[j]));
        lemma_precedes_order(keys, a, y[i], a);
    }
}

/// Every batch of keys of one length has an order of visit.
#[verifier::rlimit(30)]
pub proof fn lemma_sorted_order_exists(keys: Seq<Seq<u8>>)
    requires
        same_length(keys),
    ensures
        is_sorted_order(keys, sorted_order(keys)),
    decreases keys.len(),
{
    if keys.len() == 0 {
        assert(is_sorted_order(keys, Seq::<int>::empty()));
    } else {
        let n = keys.len() - 1;
        let head = keys.drop_last();
        lemma_sorted_order_exists(head);
        let o = sorted_order(head);
        let p = insertion_point(keys, o, 0);
        lemma_insertion_point(keys, o, 0);
        let order = o.take(p).push(n) + o.skip(p);
        assert forall|i: int| 0 <= i < order.len() implies 0 <= #[trigger] order[i] < keys.len() by {
            if i < p {
                assert(order[i] == o[i]);
            } else if i > p {
                assert(order[i] == o[i - 1]);
            }
        }
        assert forall|k: int| 0 <= k < keys.len() implies #[trigger] order.contains(k) by {
            if k == n {
                assert(order[p] == n);
            } else {
                assert(o.contains(k));
                let j = choose|j: int| 0 <= j < o.len() && o[j] == k;
                if j < p {
                    assert(order[j] == k);
                } else {
                    assert(order[j + 1] == k);
                }
            }
        }
        assert forall|i: int, j: int| 0 <= i < j < order.len() implies precedes(
            keys,
            #[trigger] order[i],
            #[trigger] order[j],
        ) by {
            let a = if i < p {
                i
            } else {
                i - 1
            };
            let b = if j < p {
                j
            } else {
                j - 1
            };
            if i != p && j != p {
                assert(order[i] == o[a] && order[j] == o[b]);
                assert(precedes(head, o[a], o[b]));
            } else if i == p {
                assert(order[j] == o[b]);
                if b > p {
                    assert(precedes(head, o[p], o[b]));
                    lemma_precedes_order(keys, n, o[p], o[b]);
                }
            } else {
                assert(order[i] == o[a]);
                lemma_precedes_order(keys, o[a], n, n);
            }
        }
        assert(is_sorted_order(keys, order));
    }
}

/// The first index of `order`, from `i` on, whose key comes after the last
/// key; the end of `order` if there is none.
spec fn insertion_point(keys: Seq<Seq<u8>>, order: Seq<int>, i: int) -> int
    decreases order.len() - i,
{
    if 0 <= i < order.len() && !lex_lt(keys.last(), keys[order[i]]) {
        insertion_point(keys, order, i + 1)
    } else {
        i
    }
}

proof fn lemma_insertion_point(keys: Seq<Seq<u8>>, order: Seq<int>, i: int)
    requires
        0 <= i <= order.len(),
    ensures
        i <= insertion_point(keys, order, i) <= order.len(),
        forall|j: int| i <= j < insertion_point(keys, order, i) ==> !lex_lt(keys.last(), keys[order[j]]),
        insertion_point(keys, order, i) < order.len() ==> lex_lt(
            keys.last(),
            keys[order[insertion_point(keys, order, i)]],
        ),
    decreases order.len() - i,
{
    if i < order.len() && !lex_lt(keys.last(), keys[order[i]]) {
        lemma_insertion_point(keys, order, i + 1);
    }
}

/// Sorts `order` with `slice::sort_by_key`, each position keyed by the hash
/// it points at. The standard library sorts stably and hashes compare byte
/// by byte, so of the positions `0..n` in rising order every one is kept
/// and a position comes before every other whose key is greater, or equal
/// and further on.
#[verifier::external_body]
fn sort_by_key(order: &mut Vec<usize>, keys: &[crate::Hash])
    requires
        old(order)@.len() == keys@.len(),
        forall|i: int| 0 <= i < old(order)@.len() ==> old(order)@[i] == i,
    ensures
        is_sorted_order(hashes_view(keys@), indices_view(final(order)@)),
{
    order.sort_by_key(|i| keys[*i]);
}

/// The positions of `keys` in the order of visit of a batch.
pub fn get_sorted_indices(keys: &[crate::Hash]) -> (order: Vec<usize>)
    ensures
        is_sorted_order(hashes_view(keys@), indices_view(order@)),
        indices_view(order@) == sorted_order(hashes_view(keys@)),
{
    let mut order: Vec<usize> = Vec::new();
    let mut i: usize = 0;
    while i < keys.len()
        invariant
            i <= keys@.len(),
            order@.len() == i,
            forall|j: int| 0 <= j < i ==> order@[j] == j,
        decreases keys@.len() - i,
    {
        order.push(i);
        i += 1;
    }
    sort_by_key(&mut order, keys);
    proof {
        let kv = hashes_view(keys@);
        lemma_sorted_order_unique(kv, indices_view(order@), sorted_order(kv));
    }
    order
}

} // verus!
