//! What a removal does to the map that a sound tree stands for.
use vstd::prelude::*;
use crate::bits::{BitsView, lemma_shift_bits, lemma_shift_tight};
use crate::errors::ErrorKind;
use crate::hasher::{Hasher, digest_of};
use crate::model::{Store, apply_writes, delete_writes, lemma_apply_few, lemma_apply_push, load,
    without};
use crate::node::{NodeView, UnitView};
use crate::utils::{common_prefix_len, lemma_common_prefix};
use crate::walk::{along, collision_free, content_addressed, lemma_along_leaf,
    lemma_along_miss, lemma_apply_extends, lemma_frame_along, lemma_frame_edge,
    lemma_frame_sound, lemma_frame_walk, lemma_installed, lemma_pick, lemma_sound_node,
    lemma_stored_sides, sound, walk};

verus! {

/// The buffers that the removal writes clash neither with each other nor
/// with what the store holds.
pub open spec fn delete_clean<H: Hasher>(h: H, store: Store, root: Seq<u8>, bits: BitsView) -> bool {
    let r = delete_writes(h, store, root, bits);
    r is Ok && r->Ok_0 is Some ==> collision_free(h, store.values() + r->Ok_0->0.to_set())
}

/// What holds of a subtree after writing `w` to take a path out of it: the
/// store keeps what it held; if nothing was written, the subtree held
/// nothing but the path; otherwise the new subtree is sound, and a walk
/// along `k` in it finds nothing if `k` is the path and what it found
/// before otherwise.
pub open spec fn taken_out<H: Hasher>(
    h: H,
    store: Store,
    root: Seq<u8>,
    depth: int,
    key: Seq<bool>,
    w: Seq<Seq<u8>>,
    k: Seq<bool>,
) -> bool {
    let after = apply_writes(h, store, w);
    &&& walk(store, root, key) is Ok
    &&& walk(store, root, key)->Ok_0 is Some
    &&& store.submap_of(after)
    &&& content_addressed(h, after)
    &&& if w.len() == 0 {
        k != key ==> walk(store, root, k) == Ok::<Option<Seq<u8>>, ErrorKind>(None)
    } else {
        &&& sound(after, digest_of(h, w.last()), depth)
        &&& walk(after, digest_of(h, w.last()), k) == (if k == key {
            Ok::<Option<Seq<u8>>, ErrorKind>(None)
        } else {
            walk(store, root, k)
        })
    }
}

/// The removal goes through. It finds the path missing exactly where a
/// walk finds nothing; otherwise `taken_out` holds of what it writes.
pub open spec fn delete_holds<H: Hasher>(
    h: H,
    store: Store,
    root: Seq<u8>,
    bits: BitsView,
    k: Seq<bool>,
) -> bool {
    let r = delete_writes(h, store, root, bits);
    &&& r is Ok
    &&& match r->Ok_0 {
        None => walk(store, root, bits.bits()) == Ok::<Option<Seq<u8>>, ErrorKind>(None),
        Some(w) => taken_out(h, store, root, bits.len(), bits.bits(), w, k),
    }
}

/// What is needed of a removal for `delete_holds`.
pub open spec fn delete_given<H: Hasher>(
    h: H,
    store: Store,
    root: Seq<u8>,
    bits: BitsView,
    k: Seq<bool>,
) -> bool {
    &&& content_addressed(h, store)
    &&& bits.tight()
    &&& sound(store, root, bits.len())
    &&& k.len() == bits.len()
    &&& delete_clean(h, store, root, bits)
}

/// A node whose child on the side of the path held nothing but the path,
/// written without that child.
#[verifier::rlimit(40)]
proof fn lemma_cut<H: Hasher>(h: H, store: Store, root: Seq<u8>, bits: BitsView, k: Seq<bool>)
    requires
        content_addressed(h, store),
        bits.tight(),
        sound(store, root, bits.len()),
        k.len() == bits.len(),
        ({
            let (unit, other) = load(store, root)->Ok_0.cells(bits.first());
            &&& collision_free(h, store.values() + without(other).to_set())
            &&& unit.bits.bits()[0] == bits.bits()[0]
            &&& along(store, unit, bits.bits()) is Ok
            &&& along(store, unit, bits.bits())->Ok_0 is Some
            &&& k != bits.bits() ==> along(store, unit, k) == Ok::<Option<Seq<u8>>, ErrorKind>(None)
        }),
    ensures
        taken_out(
            h,
            store,
            root,
            bits.len(),
            bits.bits(),
            without(load(store, root)->Ok_0.cells(bits.first()).1),
            k,
        ),
{
    let d = bits.len();
    lemma_sound_node(store, root, d);
    let node = load(store, root)->Ok_0;
    lemma_stored_sides(node);
    let (unit, other) = node.cells(bits.first());
    let key = bits.bits();
    assert(key[0] == bits.first());
    let w = without(other);
    lemma_apply_extends(h, store, w);
    let after = apply_writes(h, store, w);
    if other is Some {
        let o = other->0;
        let left = NodeView::Soft(o);
        let buf = left.to_bytes();
        assert(w[0] == buf);
        lemma_apply_few(h, store, buf, buf);
        lemma_frame_edge(store, after, o, d);
        lemma_installed(h, after, left, d);
        lemma_pick(left, k[0]);
        lemma_frame_along(store, after, o, d, k);
        assert(o.bits.first() == o.bits.bits()[0]);
        if k[0] == key[0] {
            lemma_along_miss(store, o, k);
        } else {
            assert(node.cells(k[0]).0 == o);
        }
    }
}

/// The path ends on the edge that the removal found.
#[verifier::rlimit(40)]
proof fn lemma_delete_hit<H: Hasher>(h: H, store: Store, root: Seq<u8>, bits: BitsView, k: Seq<bool>)
    requires
        delete_given(h, store, root, bits, k),
        common_prefix_len(load(store, root)->Ok_0.cells(bits.first()).0.bits.bits(), bits.bits())
            == bits.len(),
    ensures
        delete_holds(h, store, root, bits, k),
{
    let d = bits.len();
    lemma_sound_node(store, root, d);
    let node = load(store, root)->Ok_0;
    let (unit, other) = node.cells(bits.first());
    let label = unit.bits.bits();
    let key = bits.bits();
    lemma_common_prefix(label, key);
    assert(label =~= key) by {
        assert(key =~= label.take(d));
    }
    lemma_along_leaf(store, unit, k);
    lemma_along_leaf(store, unit, key);
    assert(delete_writes(h, store, root, bits) == Ok::<Option<Seq<Seq<u8>>>, ErrorKind>(
        Some(without(other)),
    ));
    lemma_cut(h, store, root, bits, k);
}

/// The removal passed on into the child's subtree.
#[verifier::rlimit(40)]
proof fn lemma_delete_over<H: Hasher>(h: H, store: Store, root: Seq<u8>, bits: BitsView, k: Seq<bool>)
    requires
        delete_given(h, store, root, bits, k),
        ({
            let unit = load(store, root)->Ok_0.cells(bits.first()).0;
            let n = common_prefix_len(unit.bits.bits(), bits.bits());
            &&& 0 < n < bits.len()
            &&& n == unit.bits.len()
            &&& delete_holds(h, store, unit.hash, bits.shift(n, false), k.skip(n))
            &&& delete_holds(h, store, unit.hash, bits.shift(n, false), bits.bits().skip(n))
        }),
    ensures
        delete_holds(h, store, root, bits, k),
{
    let d = bits.len();
    lemma_sound_node(store, root, d);
    let node = load(store, root)->Ok_0;
    lemma_stored_sides(node);
    let (unit, other) = node.cells(bits.first());
    let label = unit.bits.bits();
    let key = bits.bits();
    let n = common_prefix_len(label, key);
    lemma_common_prefix(label, key);
    lemma_common_prefix(label, k);
    assert(key[0] == bits.first());
    assert(label[0] == unit.bits.first());
    let rest = bits.shift(n, false);
    lemma_shift_bits(bits, n, false);
    let below = delete_writes(h, store, unit.hash, rest)->Ok_0;
    let m = common_prefix_len(label, k);
    assert(k == key <==> (m == n && k.skip(n) == key.skip(n))) by {
        if m == n && k.skip(n) == key.skip(n) {
            assert forall|i: int| 0 <= i < d implies k[i] == key[i] by {
                if i >= n {
                    assert(k.skip(n)[i - n] == key.skip(n)[i - n]);
                }
            }
            assert(k =~= key);
        }
    }
    assert(walk(store, root, key) == walk(store, unit.hash, key.skip(n)));
    if below is Some {
        let wc = below->0;
        if wc.len() == 0 {
            assert(delete_writes(h, store, root, bits) == Ok::<Option<Seq<Seq<u8>>>, ErrorKind>(
                Some(without(other)),
            ));
            lemma_cut(h, store, root, bits, k);
        } else {
            let mid = apply_writes(h, store, wc);
            let child = digest_of(h, wc.last());
            let up = UnitView { hash: child, bits: unit.bits };
            let shrunk = NodeView::of_cells(Some(up), other);
            let buf = shrunk.to_bytes();
            let w = wc.push(buf);
            assert(delete_writes(h, store, root, bits) == Ok::<Option<Seq<Seq<u8>>>, ErrorKind>(
                Some(w),
            ));
            lemma_apply_push(h, store, wc, buf);
            lemma_apply_extends(h, store, w);
            assert(w.drop_last() =~= wc);
            let after = apply_writes(h, store, w);
            assert(w[w.len() - 1] == buf);
            lemma_frame_sound(mid, after, child, d - n);
            if other is Some {
                lemma_frame_edge(store, after, other->0, d);
            }
            lemma_installed(h, after, shrunk, d);
            lemma_pick(shrunk, k[0]);
            if k[0] != key[0] {
                if other is Some {
                    assert(node.cells(k[0]).0 == other->0);
                    lemma_frame_along(store, after, other->0, d, k);
                } else {
                    lemma_along_miss(store, unit, k);
                    lemma_along_miss(after, up, k);
                }
            } else if m == n {
                lemma_frame_walk(mid, after, child, d - n, k.skip(n));
            }
        }
    }
}

/// A removal from a sound subtree of a content-addressed store goes
/// through. It tells that the path is missing exactly where a lookup finds
/// nothing; otherwise it leaves either nothing, if the subtree held nothing
/// else, or a sound subtree that binds every other path to what it was
/// bound to and the removed path to nothing, unless two of the buffers
/// written or stored collide.
#[verifier::rlimit(40)]
pub proof fn lemma_delete<H: Hasher>(h: H, store: Store, root: Seq<u8>, bits: BitsView, k: Seq<bool>)
    requires
        delete_given(h, store, root, bits, k),
    ensures
        delete_holds(h, store, root, bits, k),
    decreases bits.len(),
{
    let d = bits.len();
    lemma_sound_node(store, root, d);
    let node = load(store, root)->Ok_0;
    let unit = node.cells(bits.first()).0;
    let label = unit.bits.bits();
    let key = bits.bits();
    let n = common_prefix_len(label, key);
    lemma_common_prefix(label, key);
    assert(key[0] == bits.first());
    if n == bits.len() {
        lemma_delete_hit(h, store, root, bits, k);
    } else if n == unit.bits.len() {
        let rest = bits.shift(n, false);
        lemma_shift_bits(bits, n, false);
        lemma_shift_tight(bits, n, false);
        assert(delete_clean(h, store, unit.hash, rest)) by {
            let below = delete_writes(h, store, unit.hash, rest);
            if below is Ok && below->Ok_0 is Some {
                let wc = below->Ok_0->0;
                let all = store.values() + delete_writes(h, store, root, bits)->Ok_0->0.to_set();
                let less = store.values() + wc.to_set();
                if wc.len() > 0 {
                    let w = delete_writes(h, store, root, bits)->Ok_0->0;
                    assert(w.drop_last() =~= wc);
                    assert forall|b: Seq<u8>| less.contains(b) implies all.contains(b) by {
                        if wc.to_set().contains(b) {
                            let i = choose|i: int| 0 <= i < wc.len() && wc[i] == b;
                            assert(w[i] == b);
                        }
                    }
                } else {
                    assert forall|b: Seq<u8>| less.contains(b) implies all.contains(b) by {}
                }
            }
        }
        lemma_delete(h, store, unit.hash, rest, k.skip(n));
        lemma_delete(h, store, unit.hash, rest, key.skip(n));
        lemma_delete_over(h, store, root, bits, k);
    } else {
    }
}

} // verus!
