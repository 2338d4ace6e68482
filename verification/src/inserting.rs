//! What an insert does to the map that a sound tree stands for.
use vstd::prelude::*;
use crate::bits::{BitsView, lemma_shift_bits, lemma_shift_tight};
use crate::errors::ErrorKind;
use crate::hasher::{Hasher, digest_of};
use crate::model::{Store, apply_writes, lemma_apply_few, lemma_apply_push, load, put_writes};
use crate::node::{NodeView, UnitView};
use crate::utils::{common_prefix_len, lemma_common_prefix};
use crate::walk::{along, collision_free, content_addressed, edge_sound, lemma_along_leaf,
    lemma_along_miss, lemma_apply_extends, lemma_common_prefix_is, lemma_frame_along,
    lemma_frame_edge, lemma_frame_sound, lemma_frame_walk, lemma_installed, lemma_pick,
    lemma_sound_node, lemma_stored_sides, sound, walk};

verus! {

/// The buffers that the insert writes clash neither with each other nor
/// with what the store holds.
pub open spec fn put_clean<H: Hasher>(
    h: H,
    store: Store,
    root: Seq<u8>,
    bits: BitsView,
    leaf: Seq<u8>,
) -> bool {
    put_writes(h, store, root, bits, leaf) is Ok ==> collision_free(
        h,
        store.values() + put_writes(h, store, root, bits, leaf)->Ok_0.to_set(),
    )
}

/// The insert goes through, the store keeps what it held, the new subtree
/// is sound, and a walk along `k` in it finds the new leaf if `k` is the
/// inserted path and what it found before otherwise.
pub open spec fn put_holds<H: Hasher>(
    h: H,
    store: Store,
    root: Seq<u8>,
    bits: BitsView,
    leaf: Seq<u8>,
    k: Seq<bool>,
) -> bool {
    let w = put_writes(h, store, root, bits, leaf);
    &&& w is Ok
    &&& w->Ok_0.len() > 0
    &&& ({
        let after = apply_writes(h, store, w->Ok_0);
        let top = digest_of(h, w->Ok_0.last());
        &&& store.submap_of(after)
        &&& content_addressed(h, after)
        &&& sound(after, top, bits.len())
        &&& walk(after, top, k) == (if k == bits.bits() {
            Ok::<Option<Seq<u8>>, ErrorKind>(Some(leaf))
        } else {
            walk(store, root, k)
        })
    })
}

/// What is needed of an insert for `put_holds`.
pub open spec fn put_given<H: Hasher>(
    h: H,
    store: Store,
    root: Seq<u8>,
    bits: BitsView,
    leaf: Seq<u8>,
    k: Seq<bool>,
) -> bool {
    &&& content_addressed(h, store)
    &&& bits.tight()
    &&& leaf.len() == 32
    &&& sound(store, root, bits.len())
    &&& k.len() == bits.len()
    &&& put_clean(h, store, root, bits, leaf)
}

/// The new edge set beside the only child.
#[verifier::rlimit(40)]
proof fn lemma_put_aside<H: Hasher>(
    h: H,
    store: Store,
    root: Seq<u8>,
    bits: BitsView,
    leaf: Seq<u8>,
    k: Seq<bool>,
)
    requires
        put_given(h, store, root, bits, leaf, k),
        common_prefix_len(load(store, root)->Ok_0.cells(bits.first()).0.bits.bits(), bits.bits())
            == 0,
    ensures
        put_holds(h, store, root, bits, leaf, k),
{
    let d = bits.len();
    lemma_sound_node(store, root, d);
    let node = load(store, root)->Ok_0;
    lemma_stored_sides(node);
    let unit = node.cells(bits.first()).0;
    let label = unit.bits.bits();
    let key = bits.bits();
    lemma_common_prefix(label, key);
    assert(key[0] == bits.first());
    assert(label[0] == unit.bits.first());
    assert(node is Soft);
    let fresh = UnitView { hash: leaf, bits };
    let grown = NodeView::Hard(unit, fresh);
    let buf = grown.to_bytes();
    let w = seq![buf];
    assert(put_writes(h, store, root, bits, leaf) == Ok::<Seq<Seq<u8>>, ErrorKind>(w));
    lemma_apply_few(h, store, buf, buf);
    lemma_apply_extends(h, store, w);
    let after = apply_writes(h, store, w);
    assert(w[0] == buf);
    lemma_frame_edge(store, after, unit, d);
    lemma_installed(h, after, grown, d);
    lemma_pick(grown, k[0]);
    if k[0] == label[0] {
        lemma_frame_along(store, after, unit, d, k);
    } else {
        lemma_along_leaf(after, fresh, k);
        lemma_along_miss(store, unit, k);
    }
}

/// The new edge in the place of the child that it equals.
#[verifier::rlimit(40)]
proof fn lemma_put_replace<H: Hasher>(
    h: H,
    store: Store,
    root: Seq<u8>,
    bits: BitsView,
    leaf: Seq<u8>,
    k: Seq<bool>,
)
    requires
        put_given(h, store, root, bits, leaf, k),
        common_prefix_len(load(store, root)->Ok_0.cells(bits.first()).0.bits.bits(), bits.bits())
            == bits.len(),
    ensures
        put_holds(h, store, root, bits, leaf, k),
{
    let d = bits.len();
    lemma_sound_node(store, root, d);
    let node = load(store, root)->Ok_0;
    lemma_stored_sides(node);
    let (unit, other) = node.cells(bits.first());
    let label = unit.bits.bits();
    let key = bits.bits();
    lemma_common_prefix(label, key);
    assert(key[0] == bits.first());
    assert(label[0] == unit.bits.first());
    assert(label =~= key) by {
        assert(key =~= label.take(d));
    }
    let fresh = UnitView { hash: leaf, bits };
    let grown = NodeView::of_cells(Some(fresh), other);
    let buf = grown.to_bytes();
    let w = seq![buf];
    assert(put_writes(h, store, root, bits, leaf) == Ok::<Seq<Seq<u8>>, ErrorKind>(w));
    lemma_apply_few(h, store, buf, buf);
    lemma_apply_extends(h, store, w);
    let after = apply_writes(h, store, w);
    assert(w[0] == buf);
    if other is Some {
        lemma_frame_edge(store, after, other->0, d);
    }
    lemma_installed(h, after, grown, d);
    lemma_pick(grown, k[0]);
    lemma_along_leaf(after, fresh, k);
    lemma_along_leaf(store, unit, k);
    if other is Some && k[0] != key[0] {
        assert(node.cells(k[0]).0 == other->0);
        lemma_frame_along(store, after, other->0, d, k);
    }
}

/// The insert passed on into the child's subtree.
#[verifier::rlimit(40)]
proof fn lemma_put_over<H: Hasher>(
    h: H,
    store: Store,
    root: Seq<u8>,
    bits: BitsView,
    leaf: Seq<u8>,
    k: Seq<bool>,
)
    requires
        put_given(h, store, root, bits, leaf, k),
        ({
            let unit = load(store, root)->Ok_0.cells(bits.first()).0;
            let n = common_prefix_len(unit.bits.bits(), bits.bits());
            &&& 0 < n < bits.len()
            &&& n == unit.bits.len()
            &&& put_holds(h, store, unit.hash, bits.shift(n, false), leaf, k.skip(n))
        }),
    ensures
        put_holds(h, store, root, bits, leaf, k),
{
    let d = bits.len();
    lemma_sound_node(store, root, d);
    let node = load(store, root)->Ok_0;
    lemma_stored_sides(node);
    let (unit, other) = node.cells(bits.first());
    let label = unit.bits.bits();
    let key = bits.bits();
    let n = common_prefix_len(label, key);
    lemma_common_prefix(label, key);
    lemma_common_prefix(label, k);
    assert(key[0] == bits.first());
    assert(label[0] == unit.bits.first());
    let rest = bits.shift(n, false);
    lemma_shift_bits(bits, n, false);
    let wc = put_writes(h, store, unit.hash, rest, leaf)->Ok_0;
    let mid = apply_writes(h, store, wc);
    let child = digest_of(h, wc.last());
    let up = UnitView { hash: child, bits: unit.bits };
    let grown = NodeView::of_cells(Some(up), other);
    let buf = grown.to_bytes();
    let w = wc.push(buf);
    assert(put_writes(h, store, root, bits, leaf) == Ok::<Seq<Seq<u8>>, ErrorKind>(w));
    lemma_apply_push(h, store, wc, buf);
    lemma_apply_extends(h, store, w);
    assert(w.drop_last() =~= wc);
    let after = apply_writes(h, store, w);
    assert(w[w.len() - 1] == buf);
    lemma_frame_sound(mid, after, child, d - n);
    if other is Some {
        lemma_frame_edge(store, after, other->0, d);
    }
    lemma_installed(h, after, grown, d);
    lemma_pick(grown, k[0]);
    if k[0] != key[0] {
        if other is Some {
            assert(node.cells(k[0]).0 == other->0);
            lemma_frame_along(store, after, other->0, d, k);
        } else {
            lemma_along_miss(store, unit, k);
            lemma_along_miss(after, up, k);
        }
    } else {
        let m = common_prefix_len(label, k);
        if m == n {
            lemma_frame_walk(mid, after, child, d - n, k.skip(n));
            lemma_same_rest(k, key, n);
        }
    }
}

/// The node that takes the place of an edge split after `n` bits: the rest
/// of the old edge beside the rest of the new path.
pub open spec fn fork_of(unit: UnitView, bits: BitsView, leaf: Seq<u8>, n: int) -> NodeView {
    NodeView::Hard(
        UnitView { hash: unit.hash, bits: unit.bits.shift(n, false) },
        UnitView { hash: leaf, bits: bits.shift(n, false) },
    )
}

/// The two rests of a split edge make a valid node.
proof fn lemma_fork_valid(unit: UnitView, bits: BitsView, leaf: Seq<u8>, n: int)
    requires
        unit.valid(),
        bits.tight(),
        leaf.len() == 32,
        n == common_prefix_len(unit.bits.bits(), bits.bits()),
        0 < n < bits.len(),
        n < unit.bits.len(),
    ensures
        fork_of(unit, bits, leaf, n).valid(),
        fork_of(unit, bits, leaf, n)->Hard_0.bits.bits() == unit.bits.bits().skip(n),
        fork_of(unit, bits, leaf, n)->Hard_1.bits.bits() == bits.bits().skip(n),
        fork_of(unit, bits, leaf, n)->Hard_0.bits.first() == unit.bits.bits()[n],
        fork_of(unit, bits, leaf, n)->Hard_1.bits.first() == bits.bits()[n],
        fork_of(unit, bits, leaf, n)->Hard_0.bits.len() == unit.bits.len() - n,
        fork_of(unit, bits, leaf, n)->Hard_1.bits.len() == bits.len() - n,
        unit.bits.shift(n, true).tight(),
        unit.bits.shift(n, true).bits() == unit.bits.bits().take(n),
        unit.bits.shift(n, true).len() == n,
        unit.bits.shift(n, true).first() == unit.bits.bits()[0],
{
    let label = unit.bits.bits();
    let key = bits.bits();
    lemma_common_prefix(label, key);
    lemma_shift_bits(bits, n, false);
    lemma_shift_bits(unit.bits, n, false);
    lemma_shift_bits(unit.bits, n, true);
    lemma_shift_tight(bits, n, false);
    lemma_shift_tight(unit.bits, n, false);
    lemma_shift_tight(unit.bits, n, true);
    let lu = fork_of(unit, bits, leaf, n)->Hard_0;
    let ru = fork_of(unit, bits, leaf, n)->Hard_1;
    let stem = unit.bits.shift(n, true);
    assert(lu.bits.bits()[0] == label[n]);
    assert(ru.bits.bits()[0] == key[n]);
    assert(lu.bits.first() == lu.bits.bits()[0]);
    assert(ru.bits.first() == ru.bits.bits()[0]);
    assert(stem.first() == stem.bits()[0]);
    assert(stem.bits()[0] == label[0]);
}

/// What is known where an edge is split after `n` bits and a walk along `k`
/// comes to it in a store that holds the fork under `inner`.
pub open spec fn split_given(
    store: Store,
    after: Store,
    unit: UnitView,
    bits: BitsView,
    leaf: Seq<u8>,
    inner: Seq<u8>,
    k: Seq<bool>,
    n: int,
) -> bool {
    &&& store.submap_of(after)
    &&& unit.valid()
    &&& bits.tight()
    &&& leaf.len() == 32
    &&& k.len() == bits.len()
    &&& edge_sound(store, unit, bits.len())
    &&& n == common_prefix_len(unit.bits.bits(), bits.bits())
    &&& 0 < n < bits.len()
    &&& n < unit.bits.len()
    &&& load(after, inner) == Ok::<NodeView, ErrorKind>(fork_of(unit, bits, leaf, n).ordered())
}

/// What a walk along `k` finds from the stem of the split edge on.
pub open spec fn split_found(
    store: Store,
    after: Store,
    unit: UnitView,
    bits: BitsView,
    leaf: Seq<u8>,
    inner: Seq<u8>,
    k: Seq<bool>,
    n: int,
) -> bool {
    along(after, UnitView { hash: inner, bits: unit.bits.shift(n, true) }, k) == (if k
        == bits.bits() {
        Ok::<Option<Seq<u8>>, ErrorKind>(Some(leaf))
    } else {
        along(store, unit, k)
    })
}

/// Two bit strings of one length that agree on their first `n` bits are
/// equal exactly if they agree on the rest.
proof fn lemma_same_rest(k: Seq<bool>, key: Seq<bool>, n: int)
    requires
        k.len() == key.len(),
        0 <= n <= k.len(),
        forall|i: int| 0 <= i < n ==> k[i] == key[i],
    ensures
        k == key <==> k.skip(n) == key.skip(n),
{
    if k.skip(n) == key.skip(n) {
        assert forall|i: int| 0 <= i < k.len() implies k[i] == key[i] by {
            if i >= n {
                assert(k.skip(n)[i - n] == key.skip(n)[i - n]);
            }
        }
        assert(k =~= key);
    }
}

/// The walk parts from the old edge before the split: it finds nothing,
/// as before.
#[verifier::rlimit(40)]
proof fn lemma_split_short(
    store: Store,
    after: Store,
    unit: UnitView,
    bits: BitsView,
    leaf: Seq<u8>,
    inner: Seq<u8>,
    k: Seq<bool>,
    n: int,
)
    requires
        split_given(store, after, unit, bits, leaf, inner, k, n),
        common_prefix_len(unit.bits.bits(), k) < n,
    ensures
        split_found(store, after, unit, bits, leaf, inner, k, n),
{
    let label = unit.bits.bits();
    let key = bits.bits();
    let m = common_prefix_len(label, k);
    lemma_fork_valid(unit, bits, leaf, n);
    lemma_common_prefix(label, key);
    lemma_common_prefix(label, k);
    lemma_common_prefix_is(label.take(n), k, m);
    assert(k != key);
}

/// The walk follows the old edge beyond the split: through the fork it
/// finds what the old edge led to.
#[verifier::rlimit(40)]
proof fn lemma_split_left(
    store: Store,
    after: Store,
    unit: UnitView,
    bits: BitsView,
    leaf: Seq<u8>,
    inner: Seq<u8>,
    k: Seq<bool>,
    n: int,
)
    requires
        split_given(store, after, unit, bits, leaf, inner, k, n),
        common_prefix_len(unit.bits.bits(), k) > n,
    ensures
        split_found(store, after, unit, bits, leaf, inner, k, n),
{
    let d = bits.len();
    let label = unit.bits.bits();
    let key = bits.bits();
    let fork = fork_of(unit, bits, leaf, n);
    let lu = fork->Hard_0;
    let up = UnitView { hash: inner, bits: unit.bits.shift(n, true) };
    let m = common_prefix_len(label, k);
    let below = k.skip(n);
    lemma_fork_valid(unit, bits, leaf, n);
    lemma_common_prefix(label, key);
    lemma_common_prefix(label, k);
    lemma_common_prefix_is(label.take(n), k, n);
    assert(along(after, up, k) == walk(after, inner, below));
    assert(below[0] == k[n]);
    lemma_pick(fork, below[0]);
    assert(walk(after, inner, below) == along(after, lu, below));
    lemma_common_prefix_is(label.skip(n), below, m - n);
    assert(below.skip(m - n) =~= k.skip(m));
    assert(k != key);
    if m != d && m == label.len() {
        lemma_frame_walk(store, after, unit.hash, d - m, k.skip(m));
    }
}

/// The walk parts from the old edge at the split: through the fork it
/// finds the new leaf if it is the inserted path, and nothing otherwise.
#[verifier::rlimit(40)]
proof fn lemma_split_right(
    store: Store,
    after: Store,
    unit: UnitView,
    bits: BitsView,
    leaf: Seq<u8>,
    inner: Seq<u8>,
    k: Seq<bool>,
    n: int,
)
    requires
        split_given(store, after, unit, bits, leaf, inner, k, n),
        common_prefix_len(unit.bits.bits(), k) == n,
    ensures
        split_found(store, after, unit, bits, leaf, inner, k, n),
{
    let label = unit.bits.bits();
    let key = bits.bits();
    let fork = fork_of(unit, bits, leaf, n);
    let ru = fork->Hard_1;
    let up = UnitView { hash: inner, bits: unit.bits.shift(n, true) };
    let below = k.skip(n);
    lemma_fork_valid(unit, bits, leaf, n);
    lemma_common_prefix(label, key);
    lemma_common_prefix(label, k);
    lemma_common_prefix_is(label.take(n), k, n);
    assert(along(after, up, k) == walk(after, inner, below));
    assert(below[0] == k[n]);
    lemma_pick(fork, below[0]);
    assert(walk(after, inner, below) == along(after, ru, below));
    lemma_along_leaf(after, ru, below);
    lemma_same_rest(k, key, n);
}

/// A walk along the stem of a split edge and on through the fork finds the
/// new leaf on the inserted path and what the old edge led to elsewhere.
proof fn lemma_split_along(
    store: Store,
    after: Store,
    unit: UnitView,
    bits: BitsView,
    leaf: Seq<u8>,
    inner: Seq<u8>,
    k: Seq<bool>,
    n: int,
)
    requires
        split_given(store, after, unit, bits, leaf, inner, k, n),
    ensures
        split_found(store, after, unit, bits, leaf, inner, k, n),
{
    let m = common_prefix_len(unit.bits.bits(), k);
    if m < n {
        lemma_split_short(store, after, unit, bits, leaf, inner, k, n);
    } else if m > n {
        lemma_split_left(store, after, unit, bits, leaf, inner, k, n);
    } else {
        lemma_split_right(store, after, unit, bits, leaf, inner, k, n);
    }
}

/// The child's edge split at the end of the common prefix.
#[verifier::rlimit(40)]
proof fn lemma_put_split<H: Hasher>(
    h: H,
    store: Store,
    root: Seq<u8>,
    bits: BitsView,
    leaf: Seq<u8>,
    k: Seq<bool>,
)
    requires
        put_given(h, store, root, bits, leaf, k),
        ({
            let unit = load(store, root)->Ok_0.cells(bits.first()).0;
            let n = common_prefix_len(unit.bits.bits(), bits.bits());
            &&& 0 < n < bits.len()
            &&& n < unit.bits.len()
        }),
    ensures
        put_holds(h, store, root, bits, leaf, k),
{
    let d = bits.len();
    lemma_sound_node(store, root, d);
    let node = load(store, root)->Ok_0;
    lemma_stored_sides(node);
    let (unit, other) = node.cells(bits.first());
    let label = unit.bits.bits();
    let key = bits.bits();
    let n = common_prefix_len(label, key);
    assert(key[0] == bits.first());
    assert(label[0] == unit.bits.first());
    lemma_fork_valid(unit, bits, leaf, n);
    let fork = fork_of(unit, bits, leaf, n);
    let fork_buf = fork.to_bytes();
    let inner = digest_of(h, fork_buf);
    let up = UnitView { hash: inner, bits: unit.bits.shift(n, true) };
    let grown = NodeView::of_cells(Some(up), other);
    let buf = grown.to_bytes();
    let w = seq![fork_buf, buf];
    assert(put_writes(h, store, root, bits, leaf) == Ok::<Seq<Seq<u8>>, ErrorKind>(w));
    lemma_apply_few(h, store, fork_buf, buf);
    lemma_apply_extends(h, store, w);
    let after = apply_writes(h, store, w);
    assert(w[0] == fork_buf && w[1] == buf);
    lemma_frame_edge(store, after, unit, d);
    assert(edge_sound(after, fork->Hard_0, d - n));
    assert(edge_sound(after, fork->Hard_1, d - n));
    lemma_installed(h, after, fork, d - n);
    assert(edge_sound(after, up, d));
    if other is Some {
        lemma_frame_edge(store, after, other->0, d);
    }
    lemma_installed(h, after, grown, d);
    lemma_pick(grown, k[0]);
    if k[0] != key[0] {
        if other is Some {
            assert(node.cells(k[0]).0 == other->0);
            lemma_frame_along(store, after, other->0, d, k);
        } else {
            lemma_along_miss(store, unit, k);
            lemma_along_miss(after, up, k);
        }
    } else {
        lemma_split_along(store, after, unit, bits, leaf, inner, k, n);
    }
}

/// An insert into a sound subtree of a content-addressed store goes
/// through and leaves a sound subtree that binds the inserted path to the
/// new leaf and every other path to what it was bound to, unless two of
/// the buffers written or stored collide.
#[verifier::rlimit(40)]
pub proof fn lemma_put<H: Hasher>(
    h: H,
    store: Store,
    root: Seq<u8>,
    bits: BitsView,
    leaf: Seq<u8>,
    k: Seq<bool>,
)
    requires
        put_given(h, store, root, bits, leaf, k),
    ensures
        put_holds(h, store, root, bits, leaf, k),
    decreases bits.len(),
{
    let d = bits.len();
    lemma_sound_node(store, root, d);
    let node = load(store, root)->Ok_0;
    let unit = node.cells(bits.first()).0;
    let n = common_prefix_len(unit.bits.bits(), bits.bits());
    lemma_common_prefix(unit.bits.bits(), bits.bits());
    if n == 0 {
        lemma_put_aside(h, store, root, bits, leaf, k);
    } else if n == bits.len() {
        lemma_put_replace(h, store, root, bits, leaf, k);
    } else if n == unit.bits.len() {
        let rest = bits.shift(n, false);
        lemma_shift_bits(bits, n, false);
        lemma_shift_tight(bits, n, false);
        assert(put_clean(h, store, unit.hash, rest, leaf)) by {
            let below = put_writes(h, store, unit.hash, rest, leaf);
            if below is Ok {
                let wc = below->Ok_0;
                let w = put_writes(h, store, root, bits, leaf)->Ok_0;
                assert(w.drop_last() =~= wc);
                let all = store.values() + w.to_set();
                let less = store.values() + wc.to_set();
                assert forall|b: Seq<u8>| less.contains(b) implies all.contains(b) by {
                    if wc.to_set().contains(b) {
                        let i = choose|i: int| 0 <= i < wc.len() && wc[i] == b;
                        assert(w[i] == b);
                    }
                }
            }
        }
        lemma_put(h, store, unit.hash, rest, leaf, k.skip(n));
        lemma_put_over(h, store, root, bits, leaf, k);
    } else {
        lemma_put_split(h, store, root, bits, leaf, k);
    }
}

} // verus!
