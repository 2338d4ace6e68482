//! The tree as a map from bit strings to leaves: the walk that a lookup
//! makes, stated on the bits of the key alone, and what makes a stored tree
//! sound.
use vstd::prelude::*;
use crate::bits::{BitsView, lemma_shift_bits};
use crate::errors::ErrorKind;
use crate::hasher::{Hasher, digest_of};
use crate::model::{Store, apply_writes, chosen, find_spec, key_bits, lemma_descend, load};
use crate::node::{NodeView, UnitView, lemma_node_parsed, lemma_node_roundtrip};
use crate::utils::{bit_at, common_prefix_len, lemma_common_prefix};

verus! {

/// Every key of the store is the digest of the value under it.
pub open spec fn content_addressed<H: Hasher>(h: H, store: Store) -> bool {
    forall|k: Seq<u8>| #[trigger] store.contains_key(k) ==> digest_of(h, store[k]) == k
}

/// No two different buffers of `bufs` have the same digest.
pub open spec fn collision_free<H: Hasher>(h: H, bufs: Set<Seq<u8>>) -> bool {
    forall|a: Seq<u8>, b: Seq<u8>|
        bufs.contains(a) && bufs.contains(b) && #[trigger] digest_of(h, a) == #[trigger] digest_of(h, b)
            ==> a == b
}

/// The leaf that the bit string `k` leads to from the node under `root`:
/// at each node the walk takes the child on the side of the next bit and
/// goes on below it if the child's label is a prefix of what is left.
pub open spec fn walk(store: Store, root: Seq<u8>, k: Seq<bool>) -> Result<Option<Seq<u8>>, ErrorKind>
    decreases k.len(), 1int,
{
    match chosen(store, root, k[0]) {
        Err(e) => Err(e),
        Ok((unit, _)) => along(store, unit, k),
    }
}

/// The leaf that the bit string `k` leads to along the edge `u`: the hash
/// of the edge if `k` ends with the label, what the walk below the edge
/// finds if the label is a prefix of `k`, and nothing otherwise.
pub open spec fn along(store: Store, u: UnitView, k: Seq<bool>) -> Result<Option<Seq<u8>>, ErrorKind>
    decreases k.len(), 0int,
{
    let n = common_prefix_len(u.bits.bits(), k);
    if n == k.len() {
        Ok(Some(u.hash))
    } else if n == u.bits.len() && 0 < n {
        proof {
            lemma_common_prefix(u.bits.bits(), k);
        }
        walk(store, u.hash, k.skip(n))
    } else {
        Ok(None)
    }
}

/// The subtree below the edge `u` is sound for keys with `depth` bits left:
/// the label is no longer than that, and ends either on a leaf or on a sound
/// node.
pub open spec fn edge_sound(store: Store, u: UnitView, depth: int) -> bool
    decreases depth, 0int,
{
    &&& 0 < u.bits.len() <= depth
    &&& u.bits.len() < depth ==> sound(store, u.hash, depth - u.bits.len())
}

/// The subtree under `root` is sound for keys with `depth` bits left: every
/// node on every path is in the store and well formed, and every path
/// spells `depth` bits.
pub open spec fn sound(store: Store, root: Seq<u8>, depth: int) -> bool
    decreases depth, 1int,
{
    &&& depth > 0
    &&& match load(store, root) {
        Err(_) => false,
        Ok(NodeView::Soft(u)) => edge_sound(store, u, depth),
        Ok(NodeView::Hard(l, r)) => edge_sound(store, l, depth) && edge_sound(store, r, depth),
    }
}

/// The tree under `root`, which may be empty, is sound for keys of `depth`
/// bits.
pub open spec fn tree_sound(store: Store, root: Option<Seq<u8>>, depth: int) -> bool {
    match root {
        Some(r) => sound(store, r, depth),
        None => true,
    }
}

/// The leaf that the bit string `k` leads to in the tree under `root`.
pub open spec fn tree_walk(store: Store, root: Option<Seq<u8>>, k: Seq<bool>) -> Result<
    Option<Seq<u8>>,
    ErrorKind,
> {
    match root {
        Some(r) => walk(store, r, k),
        None => Ok(None),
    }
}

/// A lookup along a path is the walk along the bits of the path.
#[verifier::rlimit(30)]
pub proof fn lemma_find_is_walk(store: Store, root: Seq<u8>, bits: BitsView)
    requires
        bits.wf(),
        bits.len() > 0,
    ensures
        find_spec(store, root, bits) == walk(store, root, bits.bits()),
    decreases bits.len(),
{
    if chosen(store, root, bits.first()) is Ok {
        let node = load(store, root)->Ok_0;
        let k = bits.bits();
        assert(k[0] == bits.first());
        let unit = node.cells(bits.first()).0;
        let n = common_prefix_len(unit.bits.bits(), k);
        lemma_descend(store, root, bits);
        if n != bits.len() && n == unit.bits.len() {
            lemma_shift_bits(bits, n, false);
            lemma_find_is_walk(store, unit.hash, bits.shift(n, false));
        }
    }
}

/// The edges of the node under a sound root.
pub proof fn lemma_sound_node(store: Store, root: Seq<u8>, depth: int)
    requires
        sound(store, root, depth),
    ensures
        load(store, root) is Ok,
        store.contains_key(root),
        load(store, root)->Ok_0.valid(),
        load(store, root)->Ok_0.ordered() == load(store, root)->Ok_0,
        load(store, root)->Ok_0.to_bytes() == store[root],
        match load(store, root)->Ok_0 {
            NodeView::Soft(u) => edge_sound(store, u, depth),
            NodeView::Hard(l, r) => edge_sound(store, l, depth) && edge_sound(store, r, depth),
        },
        forall|right: bool|
            #[trigger] chosen(store, root, right) == Ok::<(UnitView, Option<UnitView>), ErrorKind>(
                load(store, root)->Ok_0.cells(right),
            ),
        forall|right: bool| edge_sound(store, (#[trigger] load(store, root)->Ok_0.cells(right)).0, depth),
        forall|right: bool|
            (#[trigger] load(store, root)->Ok_0.cells(right)).1 is Some ==> edge_sound(
                store,
                load(store, root)->Ok_0.cells(right).1->0,
                depth,
            ),
{
    lemma_node_parsed(store[root]);
}

/// A sound subtree stays sound in a store that holds all that the old one
/// held.
pub proof fn lemma_frame_sound(store: Store, wider: Store, root: Seq<u8>, depth: int)
    requires
        store.submap_of(wider),
        sound(store, root, depth),
    ensures
        sound(wider, root, depth),
        load(wider, root) == load(store, root),
    decreases depth, 1int,
{
    lemma_sound_node(store, root, depth);
    assert(store.dom().contains(root));
    match load(store, root)->Ok_0 {
        NodeView::Soft(u) => {
            lemma_frame_edge(store, wider, u, depth);
        },
        NodeView::Hard(l, r) => {
            lemma_frame_edge(store, wider, l, depth);
            lemma_frame_edge(store, wider, r, depth);
        },
    }
}

/// A sound edge stays sound in a store that holds all that the old one
/// held.
pub proof fn lemma_frame_edge(store: Store, wider: Store, u: UnitView, depth: int)
    requires
        store.submap_of(wider),
        edge_sound(store, u, depth),
    ensures
        edge_sound(wider, u, depth),
    decreases depth, 0int,
{
    if u.bits.len() < depth {
        lemma_frame_sound(store, wider, u.hash, depth - u.bits.len());
    }
}

/// In a sound subtree a walk never fails, and it ends the same way in a
/// store that holds all that the old one held.
#[verifier::rlimit(30)]
pub proof fn lemma_frame_walk(store: Store, wider: Store, root: Seq<u8>, depth: int, k: Seq<bool>)
    requires
        store.submap_of(wider),
        sound(store, root, depth),
        k.len() == depth,
    ensures
        walk(store, root, k) is Ok,
        walk(wider, root, k) == walk(store, root, k),
    decreases depth, 1int,
{
    lemma_sound_node(store, root, depth);
    lemma_frame_sound(store, wider, root, depth);
    let node = load(store, root)->Ok_0;
    lemma_frame_along(store, wider, node.cells(k[0]).0, depth, k);
}

/// Along a sound edge a walk never fails, and it ends the same way in a
/// store that holds all that the old one held.
#[verifier::rlimit(30)]
pub proof fn lemma_frame_along(store: Store, wider: Store, u: UnitView, depth: int, k: Seq<bool>)
    requires
        store.submap_of(wider),
        edge_sound(store, u, depth),
        k.len() == depth,
    ensures
        along(store, u, k) is Ok,
        along(wider, u, k) == along(store, u, k),
    decreases depth, 0int,
{
    let n = common_prefix_len(u.bits.bits(), k);
    lemma_common_prefix(u.bits.bits(), k);
    if n != k.len() && n == u.bits.len() {
        lemma_frame_walk(store, wider, u.hash, depth - n, k.skip(n));
    }
}

/// Along an edge that ends on a leaf, a bit string of the length of the
/// label finds the leaf if it is the label, and nothing otherwise.
pub proof fn lemma_along_leaf(store: Store, u: UnitView, k: Seq<bool>)
    requires
        0 < u.bits.len() == k.len(),
    ensures
        along(store, u, k) == (if k == u.bits.bits() {
            Ok::<Option<Seq<u8>>, ErrorKind>(Some(u.hash))
        } else {
            Ok::<Option<Seq<u8>>, ErrorKind>(None)
        }),
{
    let label = u.bits.bits();
    lemma_common_prefix(label, k);
    if common_prefix_len(label, k) == k.len() {
        assert(label.take(label.len() as int) =~= label);
        assert(k.take(k.len() as int) =~= k);
    } else if k == label {
        assert(k.take(k.len() as int) =~= k);
    }
}

/// Along an edge whose label begins with another bit than `k`, nothing is
/// found.
pub proof fn lemma_along_miss(store: Store, u: UnitView, k: Seq<bool>)
    requires
        0 < u.bits.len(),
        0 < k.len(),
        u.bits.bits()[0] != k[0],
    ensures
        along(store, u, k) == Ok::<Option<Seq<u8>>, ErrorKind>(None),
        common_prefix_len(u.bits.bits(), k) == 0,
{
    lemma_common_prefix(u.bits.bits(), k);
}

/// The longest common prefix is the only length up to which two bit
/// strings agree and at which they part or one of them ends.
pub proof fn lemma_common_prefix_is(a: Seq<bool>, b: Seq<bool>, n: int)
    requires
        0 <= n <= a.len(),
        n <= b.len(),
        forall|i: int| 0 <= i < n ==> a[i] == b[i],
        n < a.len() && n < b.len() ==> a[n] != b[n],
    ensures
        common_prefix_len(a, b) == n,
{
    lemma_common_prefix(a, b);
}

/// In a node as it is stored, the child on the side that a bit selects
/// begins with that bit if the node has two children.
pub proof fn lemma_stored_sides(node: NodeView)
    requires
        node.valid(),
        node.ordered() == node,
    ensures
        node is Hard ==> !node->Hard_0.bits.first() && node->Hard_1.bits.first(),
        forall|right: bool| node is Hard ==> (#[trigger] node.cells(right)).0.bits.first() == right,
        forall|right: bool|
            node is Hard ==> (#[trigger] node.cells(right)).1 is Some && node.cells(
                right,
            ).1->0.bits.first() != right,
        forall|right: bool| node is Soft ==> (#[trigger] node.cells(right)).1 is None,
{
}

/// The child that a bit selects in a valid node once it is stored.
pub proof fn lemma_pick(node: NodeView, right: bool)
    requires
        node.valid(),
    ensures
        node.ordered().cells(right).0 == (match node {
            NodeView::Soft(u) => u,
            NodeView::Hard(x, y) => if x.bits.first() == right {
                x
            } else {
                y
            },
        }),
{
}

/// A valid node with sound edges, once it is in the store under its digest,
/// is the root of a sound subtree.
pub proof fn lemma_installed<H: Hasher>(h: H, store: Store, node: NodeView, depth: int)
    requires
        node.valid(),
        depth > 0,
        store.contains_key(digest_of(h, node.to_bytes())),
        store[digest_of(h, node.to_bytes())] == node.to_bytes(),
        match node {
            NodeView::Soft(u) => edge_sound(store, u, depth),
            NodeView::Hard(l, r) => edge_sound(store, l, depth) && edge_sound(store, r, depth),
        },
    ensures
        load(store, digest_of(h, node.to_bytes())) == Ok::<NodeView, ErrorKind>(node.ordered()),
        sound(store, digest_of(h, node.to_bytes()), depth),
{
    lemma_node_roundtrip(node);
}

/// A content-addressed store stays content-addressed under any writes.
pub proof fn lemma_apply_content_addressed<H: Hasher>(h: H, store: Store, writes: Seq<Seq<u8>>)
    requires
        content_addressed(h, store),
    ensures
        content_addressed(h, apply_writes(h, store, writes)),
    decreases writes.len(),
{
    if writes.len() > 0 {
        lemma_apply_content_addressed(h, store, writes.drop_last());
    }
}

/// Writes whose digests clash with nothing leave a content-addressed store
/// content-addressed, keep all that it held, and are all in it afterwards.
#[verifier::rlimit(30)]
pub proof fn lemma_apply_extends<H: Hasher>(h: H, store: Store, writes: Seq<Seq<u8>>)
    requires
        content_addressed(h, store),
        collision_free(h, store.values() + writes.to_set()),
    ensures
        store.submap_of(apply_writes(h, store, writes)),
        content_addressed(h, apply_writes(h, store, writes)),
        forall|i: int|
            0 <= i < writes.len() ==> apply_writes(h, store, writes).contains_key(
                digest_of(h, #[trigger] writes[i]),
            ) && apply_writes(h, store, writes)[digest_of(h, writes[i])] == writes[i],
        forall|b: Seq<u8>|
            apply_writes(h, store, writes).values().contains(b) ==> #[trigger] (store.values()
                + writes.to_set()).contains(b),
        writes.len() > 0 ==> apply_writes(h, store, writes.drop_last()).submap_of(
            apply_writes(h, store, writes),
        ),
        writes.len() > 0 ==> collision_free(h, store.values() + writes.drop_last().to_set()),
    decreases writes.len(),
{
    let all = store.values() + writes.to_set();
    if writes.len() > 0 {
        let head = writes.drop_last();
        let buf = writes.last();
        let less = store.values() + head.to_set();
        assert forall|b: Seq<u8>| less.contains(b) implies all.contains(b) by {
            if head.to_set().contains(b) {
                let i = choose|i: int| 0 <= i < head.len() && head[i] == b;
                assert(writes[i] == b);
            }
        }
        lemma_apply_extends(h, store, head);
        let mid = apply_writes(h, store, head);
        let after = apply_writes(h, store, writes);
        let key = digest_of(h, buf);
        assert(after == mid.insert(key, buf));
        assert(writes.to_set().contains(buf)) by {
            assert(writes[writes.len() - 1] == buf);
        }
        assert(all.contains(buf));
        if mid.contains_key(key) {
            assert(mid.values().contains(mid[key])) by {
                assert(mid.contains_value(mid[key]));
            }
            assert(less.contains(mid[key]));
            assert(all.contains(mid[key]));
            assert(mid[key] == buf);
        }
        assert(mid.submap_of(after));
        assert forall|i: int| 0 <= i < writes.len() implies after.contains_key(
            digest_of(h, #[trigger] writes[i]),
        ) && after[digest_of(h, writes[i])] == writes[i] by {
            if i < head.len() {
                assert(head[i] == writes[i]);
                assert(mid.dom().contains(digest_of(h, head[i])));
            }
        }
        assert forall|b: Seq<u8>| after.values().contains(b) implies #[trigger] all.contains(b) by {
            let k = choose|k: Seq<u8>| after.dom().contains(k) && after[k] == b;
            if k != key {
                assert(mid.contains_value(b));
                assert(mid.values().contains(b));
                assert(less.contains(b));
            }
        }
    } else {
        assert forall|b: Seq<u8>| store.values().contains(b) implies #[trigger] all.contains(b) by {}
    }
}

/// A bit string that leads to a leaf in the subtree under `root`: the
/// labels of the first child of each node on the way down.
pub open spec fn some_path(store: Store, root: Seq<u8>, depth: int) -> Seq<bool>
    decreases depth,
{
    match load(store, root) {
        Err(_) => Seq::empty(),
        Ok(node) => {
            let u = node.cells(false).0;
            if 0 < u.bits.len() < depth {
                u.bits.bits() + some_path(store, u.hash, depth - u.bits.len())
            } else {
                u.bits.bits()
            }
        },
    }
}

/// A sound subtree is not empty: some bit string leads to a leaf.
#[verifier::rlimit(30)]
pub proof fn lemma_some_path(store: Store, root: Seq<u8>, depth: int)
    requires
        sound(store, root, depth),
    ensures
        some_path(store, root, depth).len() == depth,
        walk(store, root, some_path(store, root, depth)) is Ok,
        walk(store, root, some_path(store, root, depth))->Ok_0 is Some,
    decreases depth,
{
    lemma_sound_node(store, root, depth);
    let node = load(store, root)->Ok_0;
    lemma_stored_sides(node);
    let u = node.cells(false).0;
    let label = u.bits.bits();
    let k = some_path(store, root, depth);
    assert(label[0] == u.bits.first());
    if u.bits.len() < depth {
        let rest = some_path(store, u.hash, depth - u.bits.len());
        lemma_some_path(store, u.hash, depth - u.bits.len());
        assert(k == label + rest);
        assert(k[0] == label[0]);
        assert(node.cells(k[0]).0 == u);
        lemma_common_prefix_is(label, k, label.len() as int);
        assert(k.skip(label.len() as int) =~= rest);
    } else {
        assert(k == label);
        assert(node.cells(k[0]).0 == u);
        lemma_along_leaf(store, u, k);
    }
}

/// Two bytes with the same bits are the same byte.
proof fn lemma_byte_bits(x: u8, y: u8)
    requires
        ((x >> 7u8) & 1u8 == 1u8) == ((y >> 7u8) & 1u8 == 1u8),
        ((x >> 6u8) & 1u8 == 1u8) == ((y >> 6u8) & 1u8 == 1u8),
        ((x >> 5u8) & 1u8 == 1u8) == ((y >> 5u8) & 1u8 == 1u8),
        ((x >> 4u8) & 1u8 == 1u8) == ((y >> 4u8) & 1u8 == 1u8),
        ((x >> 3u8) & 1u8 == 1u8) == ((y >> 3u8) & 1u8 == 1u8),
        ((x >> 2u8) & 1u8 == 1u8) == ((y >> 2u8) & 1u8 == 1u8),
        ((x >> 1u8) & 1u8 == 1u8) == ((y >> 1u8) & 1u8 == 1u8),
        ((x >> 0u8) & 1u8 == 1u8) == ((y >> 0u8) & 1u8 == 1u8),
    ensures
        x == y,
{
    assert(x == y) by (bit_vector)
        requires
            ((x >> 7u8) & 1u8 == 1u8) == ((y >> 7u8) & 1u8 == 1u8),
            ((x >> 6u8) & 1u8 == 1u8) == ((y >> 6u8) & 1u8 == 1u8),
            ((x >> 5u8) & 1u8 == 1u8) == ((y >> 5u8) & 1u8 == 1u8),
            ((x >> 4u8) & 1u8 == 1u8) == ((y >> 4u8) & 1u8 == 1u8),
            ((x >> 3u8) & 1u8 == 1u8) == ((y >> 3u8) & 1u8 == 1u8),
            ((x >> 2u8) & 1u8 == 1u8) == ((y >> 2u8) & 1u8 == 1u8),
            ((x >> 1u8) & 1u8 == 1u8) == ((y >> 1u8) & 1u8 == 1u8),
            ((x >> 0u8) & 1u8 == 1u8) == ((y >> 0u8) & 1u8 == 1u8),
    ;
}

/// The bits of a key.
pub open spec fn bits_of(key: Seq<u8>) -> Seq<bool> {
    key_bits(key).bits()
}

/// The path of a 32-byte key is tight and 256 bits long.
pub proof fn lemma_key_bits(key: Seq<u8>)
    requires
        key.len() == 32,
    ensures
        key_bits(key).tight(),
        key_bits(key).wf(),
        key_bits(key).len() == 256,
        bits_of(key).len() == 256,
{
}

/// Two keys of one length with the same bits are the same key.
#[verifier::rlimit(30)]
pub proof fn lemma_bits_tell_keys(a: Seq<u8>, b: Seq<u8>)
    requires
        a.len() == b.len(),
        bits_of(a) == bits_of(b),
    ensures
        a == b,
{
    let x = bits_of(a);
    let y = bits_of(b);
    assert forall|i: int| 0 <= i < a.len() implies a[i] == b[i] by {
        assert(bit_at(a, 8 * i + 0) == bit_at(b, 8 * i + 0)) by {
            assert(x[8 * i + 0] == y[8 * i + 0]);
        }
        assert(bit_at(a, 8 * i + 1) == bit_at(b, 8 * i + 1)) by {
            assert(x[8 * i + 1] == y[8 * i + 1]);
        }
        assert(bit_at(a, 8 * i + 2) == bit_at(b, 8 * i + 2)) by {
            assert(x[8 * i + 2] == y[8 * i + 2]);
        }
        assert(bit_at(a, 8 * i + 3) == bit_at(b, 8 * i + 3)) by {
            assert(x[8 * i + 3] == y[8 * i + 3]);
        }
        assert(bit_at(a, 8 * i + 4) == bit_at(b, 8 * i + 4)) by {
            assert(x[8 * i + 4] == y[8 * i + 4]);
        }
        assert(bit_at(a, 8 * i + 5) == bit_at(b, 8 * i + 5)) by {
            assert(x[8 * i + 5] == y[8 * i + 5]);
        }
        assert(bit_at(a, 8 * i + 6) == bit_at(b, 8 * i + 6)) by {
            assert(x[8 * i + 6] == y[8 * i + 6]);
        }
        assert(bit_at(a, 8 * i + 7) == bit_at(b, 8 * i + 7)) by {
            assert(x[8 * i + 7] == y[8 * i + 7]);
        }
        lemma_byte_bits(a[i], b[i]);
    }
    assert(a =~= b);
}

} // verus!
