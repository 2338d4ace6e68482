//! What the tree operations compute, as functions of a store and a hasher.
//!
//! A store is a map from node hash to serialized node. A lookup reads the
//! store; an update is a sequence of node buffers to write, each under its
//! own digest, together with the root that the tree has afterwards.
use vstd::prelude::*;
use crate::bits::BitsView;
use crate::errors::ErrorKind;
use crate::hasher::{Hasher, digest_of};
use crate::node::{NodeView, UnitView, lemma_node_parsed};
use crate::order::sorted_order;
use crate::utils::{common_prefix_len, lemma_common_prefix};

verus! {

/// What a backend holds: serialized nodes by key.
pub type Store = Map<Seq<u8>, Seq<u8>>;

/// An inclusion proof: one entry per node from the root down, each with the
/// side on which the key went and the node's buffer without the hash on
/// that side.
pub type ProofView = Seq<(bool, Seq<u8>)>;

/// The effect of an update: the node buffers to write, in order, and the
/// root of the tree afterwards (`None` for the empty tree).
pub struct Change {
    pub writes: Seq<Seq<u8>>,
    pub root: Option<Seq<u8>>,
}

/// All the bits of a key, as a path.
pub open spec fn key_bits(key: Seq<u8>) -> BitsView {
    BitsView { path: key, start: 0, end: 8 * (key.len() as int) }
}

/// The node stored under `hash`.
pub open spec fn load(store: Store, hash: Seq<u8>) -> Result<NodeView, ErrorKind> {
    if !store.contains_key(hash) {
        Err(ErrorKind::Invariant)
    } else {
        match NodeView::from_bytes(store[hash]) {
            Some(node) => Ok(node),
            None => Err(ErrorKind::Decode),
        }
    }
}

/// The child of the node under `hash` on the side that `right` selects,
/// and its sibling. An edge with an empty label leads nowhere: where the
/// child on that side has one, the tree is broken.
pub open spec fn chosen(store: Store, hash: Seq<u8>, right: bool) -> Result<
    (UnitView, Option<UnitView>),
    ErrorKind,
> {
    match load(store, hash) {
        Err(e) => Err(e),
        Ok(node) => if node.cells(right).0.bits.len() <= 0 {
            Err(ErrorKind::Invariant)
        } else {
            Ok(node.cells(right))
        },
    }
}

/// The store after writing each buffer of `writes` under its digest.
pub open spec fn apply_writes<H: Hasher>(h: H, store: Store, writes: Seq<Seq<u8>>) -> Store
    decreases writes.len(),
{
    if writes.len() == 0 {
        store
    } else {
        apply_writes(h, store, writes.drop_last()).insert(digest_of(h, writes.last()), writes.last())
    }
}

/// The digest of the last buffer written, which is the new root of the
/// subtree that an update rebuilt; `None` if nothing was written.
pub open spec fn root_of<H: Hasher>(h: H, writes: Seq<Seq<u8>>) -> Option<Seq<u8>> {
    if writes.len() == 0 {
        None
    } else {
        Some(digest_of(h, writes.last()))
    }
}

/// The leaf found under `root` along `bits`, if the path leads to one.
pub open spec fn find_spec(store: Store, root: Seq<u8>, bits: BitsView) -> Result<
    Option<Seq<u8>>,
    ErrorKind,
>
    decreases bits.len(),
    when bits.len() >= 0
{
    match chosen(store, root, bits.first()) {
        Err(e) => Err(e),
        Ok((unit, _)) => {
            let n = common_prefix_len(unit.bits.bits(), bits.bits());
            if n == bits.len() {
                Ok(Some(unit.hash))
            } else if n == unit.bits.len() {
                proof {
                    lemma_descend(store, root, bits);
                }
                find_spec(store, unit.hash, bits.shift(n, false))
            } else {
                Ok(None)
            }
        },
    }
}

/// The node buffers to write, deepest first, to bind the key suffix `bits`
/// to `leaf` in the subtree under `root`. One of four things happens at the
/// node: the new edge is set beside the only child; it replaces the child
/// that it equals; the update passes on into the child's subtree; or the
/// child's edge is split at the end of the common prefix.
pub open spec fn put_writes<H: Hasher>(
    h: H,
    store: Store,
    root: Seq<u8>,
    bits: BitsView,
    leaf: Seq<u8>,
) -> Result<Seq<Seq<u8>>, ErrorKind>
    decreases bits.len(),
    when bits.len() >= 0
{
    match chosen(store, root, bits.first()) {
        Err(e) => Err(e),
        Ok((unit, other)) => {
            let n = common_prefix_len(unit.bits.bits(), bits.bits());
            let fresh = UnitView { hash: leaf, bits };
            if n == 0 {
                Ok(seq![NodeView::of_cells(Some(unit), Some(fresh)).to_bytes()])
            } else if n == bits.len() {
                Ok(seq![NodeView::of_cells(Some(fresh), other).to_bytes()])
            } else if n == unit.bits.len() {
                proof {
                    lemma_descend(store, root, bits);
                }
                match put_writes(h, store, unit.hash, bits.shift(n, false), leaf) {
                    Err(e) => Err(e),
                    Ok(w) => {
                        let up = UnitView { hash: digest_of(h, w.last()), bits: unit.bits };
                        Ok(w.push(NodeView::of_cells(Some(up), other).to_bytes()))
                    },
                }
            } else {
                let lu = UnitView { hash: unit.hash, bits: unit.bits.shift(n, false) };
                let ru = UnitView { hash: leaf, bits: bits.shift(n, false) };
                let split = NodeView::of_cells(Some(lu), Some(ru)).to_bytes();
                let up = UnitView { hash: digest_of(h, split), bits: unit.bits.shift(n, true) };
                Ok(seq![split, NodeView::of_cells(Some(up), other).to_bytes()])
            }
        },
    }
}

/// The node buffers to write, deepest first, to unbind the key suffix `bits`
/// in the subtree under `root`; `None` if the subtree does not hold the key.
/// Where nothing is left of the subtree, nothing is written.
pub open spec fn delete_writes<H: Hasher>(h: H, store: Store, root: Seq<u8>, bits: BitsView) -> Result<
    Option<Seq<Seq<u8>>>,
    ErrorKind,
>
    decreases bits.len(),
    when bits.len() >= 0
{
    match chosen(store, root, bits.first()) {
        Err(e) => Err(e),
        Ok((unit, other)) => {
            let n = common_prefix_len(unit.bits.bits(), bits.bits());
            if n == bits.len() {
                Ok(Some(without(other)))
            } else if n == unit.bits.len() {
                proof {
                    lemma_descend(store, root, bits);
                }
                match delete_writes(h, store, unit.hash, bits.shift(n, false)) {
                    Err(e) => Err(e),
                    Ok(None) => Ok(None),
                    Ok(Some(w)) => if w.len() == 0 {
                        Ok(Some(without(other)))
                    } else {
                        let up = UnitView { hash: digest_of(h, w.last()), bits: unit.bits };
                        Ok(Some(w.push(NodeView::of_cells(Some(up), other).to_bytes())))
                    },
                }
            } else {
                Ok(None)
            }
        },
    }
}

/// What is written for a node that lost one child: a soft node of the other
/// child, or nothing if there is none.
pub open spec fn without(other: Option<UnitView>) -> Seq<Seq<u8>> {
    match other {
        Some(o) => seq![NodeView::Soft(o).to_bytes()],
        None => Seq::empty(),
    }
}

/// The proof entry for a node buffer on the path of a key that goes to the
/// side `right`: a hard node left on the right loses its trailing hash and
/// keeps its tag; any other node loses its leading hash.
pub open spec fn proof_entry(bytes: Seq<u8>, right: bool) -> (bool, Seq<u8>) {
    let len = bytes.len() as int;
    if right && NodeView::from_bytes(bytes)->0 is Hard {
        (true, bytes.subrange(0, len - 33).push(0x01u8))
    } else {
        (false, bytes.subrange(32, len))
    }
}

/// The inclusion proof for the key suffix `bits` in the subtree under
/// `root`: the entries of the nodes on the path, root first; `None` if the
/// subtree does not hold the key.
pub open spec fn proof_spec(store: Store, root: Seq<u8>, bits: BitsView) -> Result<
    Option<ProofView>,
    ErrorKind,
>
    decreases bits.len(),
    when bits.len() >= 0
{
    match chosen(store, root, bits.first()) {
        Err(e) => Err(e),
        Ok((unit, _)) => {
            let n = common_prefix_len(unit.bits.bits(), bits.bits());
            let entry = proof_entry(store[root], bits.first());
            if n == bits.len() {
                Ok(Some(seq![entry]))
            } else if n == unit.bits.len() {
                proof {
                    lemma_descend(store, root, bits);
                }
                match proof_spec(store, unit.hash, bits.shift(n, false)) {
                    Err(e) => Err(e),
                    Ok(None) => Ok(None),
                    Ok(Some(p)) => Ok(Some(seq![entry] + p)),
                }
            } else {
                Ok(None)
            }
        },
    }
}

/// The node buffer that a proof entry stands for, with `hash` put back
/// where the entry left a hash out; `None` for an entry that cannot be one.
pub open spec fn rebuild(entry: (bool, Seq<u8>), hash: Seq<u8>) -> Option<Seq<u8>> {
    let (right, cut) = entry;
    if !right {
        Some(hash + cut)
    } else if cut.len() == 0 {
        None
    } else {
        Some(cut.drop_last() + hash + seq![cut.last()])
    }
}

/// The root hash that a proof leads to from `leaf`: the entries are taken
/// from the last to the first, each rebuilt around the running hash and
/// hashed.
pub open spec fn proof_root<H: Hasher>(h: H, leaf: Seq<u8>, proof: ProofView) -> Option<Seq<u8>>
    decreases proof.len(),
{
    if proof.len() == 0 {
        Some(leaf)
    } else {
        match rebuild(proof.last(), leaf) {
            None => None,
            Some(buf) => proof_root(h, digest_of(h, buf), proof.drop_last()),
        }
    }
}

/// Whether `proof` shows that `leaf` is in the tree under `root`.
pub open spec fn verify_spec<H: Hasher>(
    h: H,
    root: Option<Seq<u8>>,
    leaf: Seq<u8>,
    proof: Option<ProofView>,
) -> bool {
    match (root, proof) {
        (Some(r), Some(p)) => proof_root(h, leaf, p) == Some(r),
        _ => false,
    }
}

/// The leaf that `key` is bound to in the tree under `root`.
pub open spec fn get_spec(store: Store, root: Option<Seq<u8>>, key: Seq<u8>) -> Result<
    Option<Seq<u8>>,
    ErrorKind,
> {
    match root {
        None => Ok(None),
        Some(r) => find_spec(store, r, key_bits(key)),
    }
}

/// The effect of binding `key` to `leaf` in the tree under `root`.
pub open spec fn insert_spec<H: Hasher>(
    h: H,
    store: Store,
    root: Option<Seq<u8>>,
    key: Seq<u8>,
    leaf: Seq<u8>,
) -> Result<Change, ErrorKind> {
    let writes = match root {
        None => Ok(seq![NodeView::Soft(UnitView { hash: leaf, bits: key_bits(key) }).to_bytes()]),
        Some(r) => put_writes(h, store, r, key_bits(key), leaf),
    };
    match writes {
        Err(e) => Err(e),
        Ok(w) => Ok(Change { writes: w, root: root_of(h, w) }),
    }
}

/// The effect of unbinding `key` in the tree under `root`. A tree that does
/// not hold the key keeps its root; a tree that held nothing else becomes
/// empty.
pub open spec fn remove_spec<H: Hasher>(
    h: H,
    store: Store,
    root: Option<Seq<u8>>,
    key: Seq<u8>,
) -> Result<Change, ErrorKind> {
    match root {
        None => Ok(Change { writes: Seq::empty(), root: None }),
        Some(r) => match delete_writes(h, store, r, key_bits(key)) {
            Err(e) => Err(e),
            Ok(None) => Ok(Change { writes: Seq::empty(), root }),
            Ok(Some(w)) => Ok(Change { writes: w, root: root_of(h, w) }),
        },
    }
}

/// The inclusion proof for `key` in the tree under `root`.
pub open spec fn merkle_proof_spec(store: Store, root: Option<Seq<u8>>, key: Seq<u8>) -> Result<
    Option<ProofView>,
    ErrorKind,
> {
    match root {
        None => Ok(None),
        Some(r) => proof_spec(store, r, key_bits(key)),
    }
}

/// The keys of a batch with their leaves, in the order of visit.
pub open spec fn sorted_pairs(keys: Seq<Seq<u8>>, leaves: Seq<Seq<u8>>) -> Seq<(Seq<u8>, Seq<u8>)> {
    Seq::new(keys.len(), |i: int| (keys[sorted_order(keys)[i]], leaves[sorted_order(keys)[i]]))
}

/// The keys of a batch in the order of visit.
pub open spec fn sorted_keys(keys: Seq<Seq<u8>>) -> Seq<Seq<u8>> {
    Seq::new(keys.len(), |i: int| keys[sorted_order(keys)[i]])
}

/// The effect of binding each key of `pairs` to its leaf, one after the
/// other, each in the tree that the one before left.
pub open spec fn inserts_spec<H: Hasher>(
    h: H,
    store: Store,
    root: Option<Seq<u8>>,
    pairs: Seq<(Seq<u8>, Seq<u8>)>,
) -> Result<Change, ErrorKind>
    decreases pairs.len(),
{
    if pairs.len() == 0 {
        Ok(Change { writes: Seq::empty(), root })
    } else {
        match inserts_spec(h, store, root, pairs.drop_last()) {
            Err(e) => Err(e),
            Ok(c) => match insert_spec(
                h,
                apply_writes(h, store, c.writes),
                c.root,
                pairs.last().0,
                pairs.last().1,
            ) {
                Err(e) => Err(e),
                Ok(d) => Ok(Change { writes: c.writes + d.writes, root: d.root }),
            },
        }
    }
}

/// The effect of unbinding each key of `keys`, one after the other, each
/// in the tree that the one before left.
pub open spec fn removes_spec<H: Hasher>(
    h: H,
    store: Store,
    root: Option<Seq<u8>>,
    keys: Seq<Seq<u8>>,
) -> Result<Change, ErrorKind>
    decreases keys.len(),
{
    if keys.len() == 0 {
        Ok(Change { writes: Seq::empty(), root })
    } else {
        match removes_spec(h, store, root, keys.drop_last()) {
            Err(e) => Err(e),
            Ok(c) => match remove_spec(h, apply_writes(h, store, c.writes), c.root, keys.last()) {
                Err(e) => Err(e),
                Ok(d) => Ok(Change { writes: c.writes + d.writes, root: d.root }),
            },
        }
    }
}

/// The leaves that `keys` are bound to in the tree under `root`, in the
/// order of `keys`; the first failure, if a lookup fails.
pub open spec fn gets_spec(store: Store, root: Option<Seq<u8>>, keys: Seq<Seq<u8>>) -> Result<
    Seq<Option<Seq<u8>>>,
    ErrorKind,
>
    decreases keys.len(),
{
    if keys.len() == 0 {
        Ok(Seq::empty())
    } else {
        match gets_spec(store, root, keys.drop_last()) {
            Err(e) => Err(e),
            Ok(found) => match get_spec(store, root, keys.last()) {
                Err(e) => Err(e),
                Ok(leaf) => Ok(found.push(leaf)),
            },
        }
    }
}

/// Writing two runs of buffers one after the other is writing them all.
pub proof fn lemma_apply_concat<H: Hasher>(h: H, store: Store, a: Seq<Seq<u8>>, b: Seq<Seq<u8>>)
    ensures
        apply_writes(h, store, a + b) == apply_writes(h, apply_writes(h, store, a), b),
    decreases b.len(),
{
    if b.len() == 0 {
        assert(a + b =~= a);
    } else {
        lemma_apply_concat(h, store, a, b.drop_last());
        assert((a + b).drop_last() =~= a + b.drop_last());
    }
}

/// What a batch of inserts does on its first `k + 1` keys, given that it
/// went well on the first `k`.
pub proof fn lemma_inserts_step<H: Hasher>(
    h: H,
    store: Store,
    root: Option<Seq<u8>>,
    pairs: Seq<(Seq<u8>, Seq<u8>)>,
    k: int,
)
    requires
        0 <= k < pairs.len(),
        inserts_spec(h, store, root, pairs.take(k)) is Ok,
    ensures
        ({
            let c = inserts_spec(h, store, root, pairs.take(k))->Ok_0;
            let step = insert_spec(h, apply_writes(h, store, c.writes), c.root, pairs[k].0, pairs[k].1);
            let next = inserts_spec(h, store, root, pairs.take(k + 1));
            match step {
                Err(e) => inserts_spec(h, store, root, pairs) == Err::<Change, ErrorKind>(e),
                Ok(d) => {
                    &&& next == Ok::<Change, ErrorKind>(
                        Change { writes: c.writes + d.writes, root: d.root },
                    )
                    &&& apply_writes(h, store, c.writes + d.writes) == apply_writes(
                        h,
                        apply_writes(h, store, c.writes),
                        d.writes,
                    )
                },
            }
        }),
{
    let c = inserts_spec(h, store, root, pairs.take(k))->Ok_0;
    let step = insert_spec(h, apply_writes(h, store, c.writes), c.root, pairs[k].0, pairs[k].1);
    assert(pairs.take(k + 1).drop_last() =~= pairs.take(k));
    assert(pairs.take(k + 1).last() == pairs[k]);
    match step {
        Err(e) => {
            lemma_inserts_fail(h, store, root, pairs, k + 1);
        },
        Ok(d) => {
            lemma_apply_concat(h, store, c.writes, d.writes);
        },
    }
}

/// What a batch of removals does on its first `k + 1` keys, given that it
/// went well on the first `k`.
pub proof fn lemma_removes_step<H: Hasher>(
    h: H,
    store: Store,
    root: Option<Seq<u8>>,
    keys: Seq<Seq<u8>>,
    k: int,
)
    requires
        0 <= k < keys.len(),
        removes_spec(h, store, root, keys.take(k)) is Ok,
    ensures
        ({
            let c = removes_spec(h, store, root, keys.take(k))->Ok_0;
            let step = remove_spec(h, apply_writes(h, store, c.writes), c.root, keys[k]);
            let next = removes_spec(h, store, root, keys.take(k + 1));
            match step {
                Err(e) => removes_spec(h, store, root, keys) == Err::<Change, ErrorKind>(e),
                Ok(d) => {
                    &&& next == Ok::<Change, ErrorKind>(
                        Change { writes: c.writes + d.writes, root: d.root },
                    )
                    &&& apply_writes(h, store, c.writes + d.writes) == apply_writes(
                        h,
                        apply_writes(h, store, c.writes),
                        d.writes,
                    )
                },
            }
        }),
{
    let c = removes_spec(h, store, root, keys.take(k))->Ok_0;
    let step = remove_spec(h, apply_writes(h, store, c.writes), c.root, keys[k]);
    assert(keys.take(k + 1).drop_last() =~= keys.take(k));
    assert(keys.take(k + 1).last() == keys[k]);
    match step {
        Err(e) => {
            lemma_removes_fail(h, store, root, keys, k + 1);
        },
        Ok(d) => {
            lemma_apply_concat(h, store, c.writes, d.writes);
        },
    }
}

/// What a batch of lookups finds on its first `k + 1` keys, given that it
/// went well on the first `k`.
pub proof fn lemma_gets_step(store: Store, root: Option<Seq<u8>>, keys: Seq<Seq<u8>>, k: int)
    requires
        0 <= k < keys.len(),
        gets_spec(store, root, keys.take(k)) is Ok,
    ensures
        ({
            let found = gets_spec(store, root, keys.take(k))->Ok_0;
            match get_spec(store, root, keys[k]) {
                Err(e) => gets_spec(store, root, keys) == Err::<Seq<Option<Seq<u8>>>, ErrorKind>(e),
                Ok(leaf) => gets_spec(store, root, keys.take(k + 1)) == Ok::<
                    Seq<Option<Seq<u8>>>,
                    ErrorKind,
                >(found.push(leaf)),
            }
        }),
{
    assert(keys.take(k + 1).drop_last() =~= keys.take(k));
    assert(keys.take(k + 1).last() == keys[k]);
    if get_spec(store, root, keys[k]) is Err {
        lemma_gets_fail(store, root, keys, k + 1);
    }
}

/// A batch of inserts that fails on some of its first keys fails the same
/// way as a whole.
pub proof fn lemma_inserts_fail<H: Hasher>(
    h: H,
    store: Store,
    root: Option<Seq<u8>>,
    pairs: Seq<(Seq<u8>, Seq<u8>)>,
    k: int,
)
    requires
        0 <= k <= pairs.len(),
        inserts_spec(h, store, root, pairs.take(k)) is Err,
    ensures
        inserts_spec(h, store, root, pairs) == inserts_spec(h, store, root, pairs.take(k)),
    decreases pairs.len() - k,
{
    if k == pairs.len() {
        assert(pairs.take(k) =~= pairs);
    } else {
        assert(pairs.take(k + 1).drop_last() =~= pairs.take(k));
        lemma_inserts_fail(h, store, root, pairs, k + 1);
    }
}

/// A batch of removals that fails on some of its first keys fails the same
/// way as a whole.
pub proof fn lemma_removes_fail<H: Hasher>(
    h: H,
    store: Store,
    root: Option<Seq<u8>>,
    keys: Seq<Seq<u8>>,
    k: int,
)
    requires
        0 <= k <= keys.len(),
        removes_spec(h, store, root, keys.take(k)) is Err,
    ensures
        removes_spec(h, store, root, keys) == removes_spec(h, store, root, keys.take(k)),
    decreases keys.len() - k,
{
    if k == keys.len() {
        assert(keys.take(k) =~= keys);
    } else {
        assert(keys.take(k + 1).drop_last() =~= keys.take(k));
        lemma_removes_fail(h, store, root, keys, k + 1);
    }
}

/// A batch of lookups that fails on some of its first keys fails the same
/// way as a whole.
pub proof fn lemma_gets_fail(store: Store, root: Option<Seq<u8>>, keys: Seq<Seq<u8>>, k: int)
    requires
        0 <= k <= keys.len(),
        gets_spec(store, root, keys.take(k)) is Err,
    ensures
        gets_spec(store, root, keys) == gets_spec(store, root, keys.take(k)),
    decreases keys.len() - k,
{
    if k == keys.len() {
        assert(keys.take(k) =~= keys);
    } else {
        assert(keys.take(k + 1).drop_last() =~= keys.take(k));
        lemma_gets_fail(store, root, keys, k + 1);
    }
}

/// Writing one more buffer binds its digest to it in the store.
pub proof fn lemma_apply_push<H: Hasher>(h: H, store: Store, writes: Seq<Seq<u8>>, buf: Seq<u8>)
    ensures
        apply_writes(h, store, writes.push(buf)) == apply_writes(h, store, writes).insert(
            digest_of(h, buf),
            buf,
        ),
        root_of(h, writes.push(buf)) == Some(digest_of(h, buf)),
        apply_writes(h, store, Seq::empty()) == store,
{
    assert(writes.push(buf).drop_last() =~= writes);
}

/// Writing a single buffer, or two.
pub proof fn lemma_apply_few<H: Hasher>(h: H, store: Store, a: Seq<u8>, b: Seq<u8>)
    ensures
        apply_writes(h, store, seq![a]) == store.insert(digest_of(h, a), a),
        apply_writes(h, store, seq![a, b]) == store.insert(digest_of(h, a), a).insert(digest_of(h, b), b),
{
    lemma_apply_push(h, store, Seq::empty(), a);
    assert(Seq::<Seq<u8>>::empty().push(a) =~= seq![a]);
    lemma_apply_push(h, store, seq![a], b);
    assert(seq![a].push(b) =~= seq![a, b]);
}

/// Where a walk comes to a child, the child's edge is not empty, so what
/// is left of the key gets shorter where the walk passes on below it.
pub proof fn lemma_descend(store: Store, root: Seq<u8>, bits: BitsView)
    requires
        chosen(store, root, bits.first()) is Ok,
    ensures
        ({
            let node = load(store, root)->Ok_0;
            let unit = chosen(store, root, bits.first())->Ok_0.0;
            let n = common_prefix_len(unit.bits.bits(), bits.bits());
            &&& load(store, root) is Ok
            &&& chosen(store, root, bits.first())->Ok_0 == node.cells(bits.first())
            &&& node.valid()
            &&& unit.valid()
            &&& 0 < unit.bits.len()
            &&& unit.bits.tight()
            &&& 0 <= n
            &&& n <= unit.bits.len()
            &&& (n == unit.bits.len() ==> 0 < n)
            &&& (bits.len() >= 0 ==> n <= bits.len())
            &&& bits.shift(n, false).len() == bits.len() - n
        }),
{
    let node = load(store, root)->Ok_0;
    let unit = node.cells(bits.first()).0;
    lemma_node_parsed(store[root]);
    lemma_common_prefix(unit.bits.bits(), bits.bits());
}

} // verus!
