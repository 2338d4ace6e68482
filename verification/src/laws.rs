//! What holds of the tree operations, whatever the store and the hasher.
//!
//! A store is content-addressed when every key in it is the digest of its
//! value; the tree engine keeps it so. Where a law needs two buffers with
//! one digest to be one buffer, it asks so of the buffers that take part,
//! and of no others.
use vstd::prelude::*;
use crate::bits::BitsView;
use crate::errors::ErrorKind;
use crate::hasher::{Hasher, digest_of};
use crate::inserting::{lemma_put, put_clean};
use crate::model::{Change, ProofView, Store, apply_writes, chosen, delete_writes, find_spec,
    get_spec,
    insert_spec, inserts_spec, key_bits, lemma_apply_concat, lemma_apply_few, lemma_descend, load,
    merkle_proof_spec, proof_entry, proof_root, proof_spec, put_writes, rebuild, remove_spec,
    removes_spec, sorted_pairs, verify_spec};
use crate::removing::{delete_clean, lemma_delete};
use crate::node::{NodeView, UnitView, lemma_node_layout, lemma_node_parsed};
use crate::order::{is_sorted_order, lemma_precedes_order, lemma_sorted_order_exists,
    lemma_sorted_order_unique, precedes, same_length, sorted_order};
use crate::utils::common_prefix_len;
use crate::walk::{bits_of, collision_free, content_addressed, lemma_along_leaf,
    lemma_apply_content_addressed, lemma_apply_extends,
    lemma_bits_tell_keys, lemma_find_is_walk, lemma_installed, lemma_key_bits, lemma_some_path,
    some_path, sound, tree_sound, tree_walk, walk};

verus! {

/// The buffers that a verifier hashes on the way from `leaf` up a proof.
pub open spec fn proof_buffers<H: Hasher>(h: H, leaf: Seq<u8>, proof: ProofView) -> Set<Seq<u8>>
    decreases proof.len(),
{
    if proof.len() == 0 {
        Set::empty()
    } else {
        match rebuild(proof.last(), leaf) {
            None => Set::empty(),
            Some(buf) => proof_buffers(h, digest_of(h, buf), proof.drop_last()).insert(buf),
        }
    }
}

/// The store invariant: whatever an update writes, a content-addressed
/// store stays content-addressed. The empty store is content-addressed.
pub proof fn law_store_content_addressed<H: Hasher>(h: H, store: Store, writes: Seq<Seq<u8>>)
    requires
        content_addressed(h, store),
    ensures
        content_addressed(h, apply_writes(h, store, writes)),
        content_addressed(h, Map::<Seq<u8>, Seq<u8>>::empty()),
{
    lemma_apply_content_addressed(h, store, writes);
}

/// A proof entry with the hash of the child on the key's side put back is
/// the node's own buffer.
#[verifier::rlimit(30)]
pub proof fn lemma_rebuild_entry(bytes: Seq<u8>, right: bool)
    requires
        NodeView::from_bytes(bytes) is Some,
    ensures
        rebuild(
            proof_entry(bytes, right),
            NodeView::from_bytes(bytes)->0.cells(right).0.hash,
        ) == Some(bytes),
{
    lemma_node_layout(bytes);
    lemma_node_parsed(bytes);
    let len = bytes.len() as int;
    let node = NodeView::from_bytes(bytes)->0;
    let (flag, cut) = proof_entry(bytes, right);
    match node {
        NodeView::Soft(u) => {
            assert(!flag);
            assert(cut == bytes.subrange(32, len));
            assert(u.hash + cut =~= bytes);
        },
        NodeView::Hard(l, r) => {
            if right {
                assert(flag);
                assert(cut == bytes.subrange(0, len - 33).push(0x01u8));
                assert(cut.drop_last() =~= bytes.subrange(0, len - 33));
                assert(cut.last() == 0x01u8);
                assert(r.hash.len() == 32);
                assert(cut.drop_last() + r.hash + seq![cut.last()] =~= bytes);
            } else {
                assert(!flag);
                assert(cut == bytes.subrange(32, len));
                assert(l.hash + cut =~= bytes);
            }
        },
    }
}

/// A proof in two parts leads from the leaf up the second part, then up
/// the first.
pub proof fn lemma_proof_root_concat<H: Hasher>(h: H, leaf: Seq<u8>, a: ProofView, b: ProofView)
    ensures
        proof_root(h, leaf, a + b) == (match proof_root(h, leaf, b) {
            Some(mid) => proof_root(h, mid, a),
            None => None,
        }),
    decreases b.len(),
{
    if b.len() == 0 {
        assert(a + b =~= a);
    } else {
        assert((a + b).drop_last() =~= a + b.drop_last());
        assert((a + b).last() == b.last());
        match rebuild(b.last(), leaf) {
            None => {},
            Some(buf) => {
                lemma_proof_root_concat(h, digest_of(h, buf), a, b.drop_last());
            },
        }
    }
}

/// In a content-addressed store, the proof generated for a path that leads
/// to a leaf leads from that leaf back to the root of the subtree.
#[verifier::rlimit(30)]
pub proof fn lemma_proof_sound<H: Hasher>(h: H, store: Store, root: Seq<u8>, bits: BitsView)
    requires
        content_addressed(h, store),
        bits.len() >= 0,
        find_spec(store, root, bits) is Ok,
        find_spec(store, root, bits)->Ok_0 is Some,
    ensures
        proof_spec(store, root, bits) is Ok,
        proof_spec(store, root, bits)->Ok_0 is Some,
        proof_root(
            h,
            find_spec(store, root, bits)->Ok_0->0,
            proof_spec(store, root, bits)->Ok_0->0,
        ) == Some(root),
    decreases bits.len(),
{
    let node = load(store, root)->Ok_0;
    let bytes = store[root];
    let right = bits.first();
    let unit = node.cells(right).0;
    let n = common_prefix_len(unit.bits.bits(), bits.bits());
    let entry = proof_entry(bytes, right);
    let leaf = find_spec(store, root, bits)->Ok_0->0;
    lemma_rebuild_entry(bytes, right);
    assert(store.contains_key(root));
    assert(proof_root(h, digest_of(h, bytes), Seq::empty()) == Some(root));
    assert(seq![entry].drop_last() =~= Seq::<(bool, Seq<u8>)>::empty());
    assert(proof_root(h, unit.hash, seq![entry]) == Some(root));
    if n == bits.len() {
    } else {
        lemma_descend(store, root, bits);
        let rest = bits.shift(n, false);
        lemma_proof_sound(h, store, unit.hash, rest);
        let below = proof_spec(store, unit.hash, rest)->Ok_0->0;
        lemma_proof_root_concat(h, leaf, seq![entry], below);
    }
}

/// A tree has a proof for a path exactly where it has a leaf for it, and
/// the two walks fail alike.
pub proof fn lemma_proof_where_found(store: Store, root: Seq<u8>, bits: BitsView)
    requires
        bits.len() >= 0,
    ensures
        match find_spec(store, root, bits) {
            Ok(Some(_)) => proof_spec(store, root, bits) is Ok && proof_spec(store, root, bits)->Ok_0 is Some,
            Ok(None) => proof_spec(store, root, bits) == Ok::<Option<ProofView>, ErrorKind>(None),
            Err(e) => proof_spec(store, root, bits) == Err::<Option<ProofView>, ErrorKind>(e),
        },
    decreases bits.len(),
{
    if chosen(store, root, bits.first()) is Ok {
        let node = load(store, root)->Ok_0;
        let unit = node.cells(bits.first()).0;
        let n = common_prefix_len(unit.bits.bits(), bits.bits());
        if n != bits.len() && n == unit.bits.len() {
            lemma_descend(store, root, bits);
            lemma_proof_where_found(store, unit.hash, bits.shift(n, false));
        }
    }
}

/// Proof soundness: in a content-addressed store, the proof generated for a
/// key that the tree binds to `leaf` verifies for `leaf` against the root.
pub proof fn law_proof_sound<H: Hasher>(h: H, store: Store, root: Option<Seq<u8>>, key: Seq<u8>)
    requires
        content_addressed(h, store),
        get_spec(store, root, key) is Ok,
        get_spec(store, root, key)->Ok_0 is Some,
    ensures
        merkle_proof_spec(store, root, key) is Ok,
        verify_spec(
            h,
            root,
            get_spec(store, root, key)->Ok_0->0,
            merkle_proof_spec(store, root, key)->Ok_0,
        ),
{
    lemma_proof_sound(h, store, root->0, key_bits(key));
}

/// Non-inclusion: a key that the tree does not bind has no proof.
pub proof fn law_no_proof_without_leaf(store: Store, root: Option<Seq<u8>>, key: Seq<u8>)
    requires
        get_spec(store, root, key) == Ok::<Option<Seq<u8>>, ErrorKind>(None),
    ensures
        merkle_proof_spec(store, root, key) == Ok::<Option<ProofView>, ErrorKind>(None),
{
    if root is Some {
        lemma_proof_where_found(store, root->0, key_bits(key));
    }
}

/// Two different hashes put into the same proof entry give two different
/// buffers.
proof fn lemma_rebuild_differs(entry: (bool, Seq<u8>), x: Seq<u8>, y: Seq<u8>)
    requires
        x != y,
        rebuild(entry, x) is Some,
    ensures
        rebuild(entry, y) is Some,
        rebuild(entry, x) != rebuild(entry, y),
{
    let bx = rebuild(entry, x)->0;
    let by = rebuild(entry, y)->0;
    let (right, cut) = entry;
    if right {
        assert(bx.len() == cut.len() + x.len());
        assert(by.len() == cut.len() + y.len());
    } else {
        assert(bx.len() == cut.len() + x.len());
        assert(by.len() == cut.len() + y.len());
    }
    if bx == by {
        assert(x.len() == y.len());
        if right {
            let pre = cut.len() - 1;
            assert forall|i: int| 0 <= i < x.len() implies x[i] == y[i] by {
                assert(bx[pre + i] == x[i]);
                assert(by[pre + i] == y[i]);
            }
        } else {
            assert forall|i: int| 0 <= i < x.len() implies x[i] == y[i] by {
                assert(bx[i] == x[i]);
                assert(by[i] == y[i]);
            }
        }
        assert(x =~= y);
    }
}

/// Up one proof, two different hashes lead to two different roots, unless
/// two of the buffers hashed on the way collide.
#[verifier::rlimit(30)]
pub proof fn lemma_proof_binds<H: Hasher>(h: H, x: Seq<u8>, y: Seq<u8>, proof: ProofView)
    requires
        x != y,
        proof_root(h, x, proof) is Some,
        collision_free(h, proof_buffers(h, x, proof) + proof_buffers(h, y, proof)),
    ensures
        proof_root(h, x, proof) != proof_root(h, y, proof),
    decreases proof.len(),
{
    if proof.len() > 0 {
        lemma_rebuild_differs(proof.last(), x, y);
        let bx = rebuild(proof.last(), x)->0;
        let by = rebuild(proof.last(), y)->0;
        let rest = proof.drop_last();
        let all = proof_buffers(h, x, proof) + proof_buffers(h, y, proof);
        assert(all.contains(bx));
        assert(all.contains(by));
        assert(digest_of(h, bx) != digest_of(h, by));
        let less = proof_buffers(h, digest_of(h, bx), rest) + proof_buffers(h, digest_of(h, by), rest);
        assert forall|a: Seq<u8>| less.contains(a) implies all.contains(a) by {}
        lemma_proof_binds(h, digest_of(h, bx), digest_of(h, by), rest);
    }
}

/// Non-forgery: a proof that verifies for one leaf verifies for no other
/// leaf, unless two of the buffers that the two verifications hash collide;
/// and it verifies against no other root.
pub proof fn law_proof_binds_leaf<H: Hasher>(
    h: H,
    root: Option<Seq<u8>>,
    leaf: Seq<u8>,
    other: Seq<u8>,
    proof: Option<ProofView>,
)
    requires
        verify_spec(h, root, leaf, proof),
        other != leaf,
        collision_free(h, proof_buffers(h, leaf, proof->0) + proof_buffers(h, other, proof->0)),
    ensures
        !verify_spec(h, root, other, proof),
{
    lemma_proof_binds(h, leaf, other, proof->0);
}

/// A proof that verifies against one root verifies against no other.
pub proof fn law_proof_binds_root<H: Hasher>(
    h: H,
    root: Option<Seq<u8>>,
    other: Option<Seq<u8>>,
    leaf: Seq<u8>,
    proof: Option<ProofView>,
)
    requires
        verify_spec(h, root, leaf, proof),
        other != root,
    ensures
        !verify_spec(h, other, leaf, proof),
{
}

/// `perm` lists every position below `n` once.
pub open spec fn is_permutation(perm: Seq<int>, n: int) -> bool {
    &&& perm.len() == n
    &&& forall|i: int| 0 <= i < n ==> 0 <= #[trigger] perm[i] < n
    &&& forall|k: int| 0 <= k < n ==> #[trigger] perm.contains(k)
}

/// No key occurs twice.
pub open spec fn distinct(keys: Seq<Seq<u8>>) -> bool {
    forall|i: int, j: int| 0 <= i < j < keys.len() ==> #[trigger] keys[i] != #[trigger] keys[j]
}

/// A batch of distinct keys is visited in the same order of keys and leaves
/// however the batch is arranged.
#[verifier::rlimit(30)]
pub proof fn lemma_sorted_pairs_permuted(
    keys: Seq<Seq<u8>>,
    leaves: Seq<Seq<u8>>,
    perm: Seq<int>,
    keys2: Seq<Seq<u8>>,
    leaves2: Seq<Seq<u8>>,
)
    requires
        same_length(keys),
        distinct(keys),
        keys.len() == leaves.len(),
        is_permutation(perm, keys.len() as int),
        keys2.len() == keys.len(),
        leaves2.len() == keys.len(),
        forall|i: int| 0 <= i < keys.len() ==> #[trigger] keys2[i] == keys[perm[i]],
        forall|i: int| 0 <= i < keys.len() ==> #[trigger] leaves2[i] == leaves[perm[i]],
    ensures
        sorted_pairs(keys2, leaves2) == sorted_pairs(keys, leaves),
{
    let n = keys.len() as int;
    assert(same_length(keys2)) by {
        assert forall|i: int, j: int| 0 <= i < n && 0 <= j < n implies (#[trigger] keys2[i]).len() == (
        #[trigger] keys2[j]).len() by {
            assert(keys2[i] == keys[perm[i]]);
            assert(keys2[j] == keys[perm[j]]);
        }
    }
    lemma_sorted_order_exists(keys);
    lemma_sorted_order_exists(keys2);
    let o = sorted_order(keys);
    let o2 = sorted_order(keys2);
    let via = Seq::new(n as nat, |i: int| perm[o2[i]]);
    assert forall|k: int| 0 <= k < n implies #[trigger] via.contains(k) by {
        assert(perm.contains(k));
        let a = choose|a: int| 0 <= a < perm.len() && perm[a] == k;
        assert(o2.contains(a));
        let b = choose|b: int| 0 <= b < o2.len() && o2[b] == a;
        assert(via[b] == k);
    }
    assert forall|i: int, j: int| 0 <= i < j < n implies precedes(
        keys,
        #[trigger] via[i],
        #[trigger] via[j],
    ) by {
        assert(precedes(keys2, o2[i], o2[j]));
        lemma_precedes_order(keys2, o2[i], o2[j], o2[i]);
        assert(o2[i] != o2[j]);
        assert(keys2[o2[i]] == keys[perm[o2[i]]]);
        assert(keys2[o2[j]] == keys[perm[o2[j]]]);
        if perm[o2[i]] == perm[o2[j]] {
            assert(keys2[o2[i]] == keys2[o2[j]]);
            assert(o2[i] < o2[j]);
            lemma_no_room(perm, n, o2[i], o2[j]);
        } else {
            let a = perm[o2[i]];
            let b = perm[o2[j]];
            if a < b {
                assert(keys[a] != keys[b]);
            } else {
                assert(keys[b] != keys[a]);
            }
        }
    }
    assert(is_sorted_order(keys, via));
    lemma_sorted_order_unique(keys, via, o);
    assert(sorted_pairs(keys2, leaves2) =~= sorted_pairs(keys, leaves)) by {
        assert forall|i: int| 0 <= i < n implies sorted_pairs(keys2, leaves2)[i] == sorted_pairs(
            keys,
            leaves,
        )[i] by {
            assert(via[i] == o[i]);
            assert(keys2[o2[i]] == keys[perm[o2[i]]]);
            assert(leaves2[o2[i]] == leaves[perm[o2[i]]]);
        }
    }
}

/// How many positions below `upto` hold the value `v`.
spec fn hits(perm: Seq<int>, upto: int, v: int) -> int
    decreases upto,
{
    if upto <= 0 {
        0
    } else {
        hits(perm, upto - 1, v) + if perm[upto - 1] == v {
            1int
        } else {
            0int
        }
    }
}

/// How many positions below `upto` hold a value from `0` to `bound - 1`,
/// counted value by value.
spec fn below(perm: Seq<int>, upto: int, bound: int) -> int
    decreases bound,
{
    if bound <= 0 {
        0
    } else {
        below(perm, upto, bound - 1) + hits(perm, upto, bound - 1)
    }
}

/// Counted value by value, positions that all hold a value below `bound`
/// are as many as they are.
proof fn lemma_hits_total(perm: Seq<int>, upto: int, bound: int)
    requires
        0 <= upto <= perm.len(),
        0 <= bound,
        forall|i: int| 0 <= i < upto ==> 0 <= #[trigger] perm[i] < bound,
    ensures
        below(perm, upto, bound) == upto,
    decreases upto,
{
    if upto == 0 {
        lemma_below_none(perm, bound);
    } else {
        lemma_hits_total(perm, upto - 1, bound);
        lemma_below_step(perm, upto, bound);
    }
}

/// No position, no hit.
proof fn lemma_below_none(perm: Seq<int>, bound: int)
    requires
        0 <= bound,
    ensures
        below(perm, 0, bound) == 0,
    decreases bound,
{
    if bound > 0 {
        lemma_below_none(perm, bound - 1);
    }
}

/// One more position counts once if its value is below `bound`.
proof fn lemma_below_step(perm: Seq<int>, upto: int, bound: int)
    requires
        0 < upto <= perm.len(),
        0 <= bound,
    ensures
        below(perm, upto, bound) == below(perm, upto - 1, bound) + if 0 <= perm[upto - 1] < bound {
            1int
        } else {
            0int
        },
    decreases bound,
{
    if bound > 0 {
        lemma_below_step(perm, upto, bound - 1);
    }
}

/// A value that occurs is hit at least once.
proof fn lemma_hits_positive(perm: Seq<int>, upto: int, v: int, at: int)
    requires
        0 <= at < upto <= perm.len(),
        perm[at] == v,
    ensures
        hits(perm, upto, v) >= 1,
        hits(perm, at, v) >= 0,
    decreases upto,
{
    lemma_hits_nonnegative(perm, upto - 1, v);
    if at < upto - 1 {
        lemma_hits_positive(perm, upto - 1, v, at);
    }
    lemma_hits_nonnegative(perm, at, v);
}

/// A count is not negative.
proof fn lemma_hits_nonnegative(perm: Seq<int>, upto: int, v: int)
    ensures
        hits(perm, upto, v) >= 0,
    decreases upto,
{
    if upto > 0 {
        lemma_hits_nonnegative(perm, upto - 1, v);
    }
}

/// A value that occurs at two positions is hit at least twice.
proof fn lemma_hits_twice(perm: Seq<int>, upto: int, v: int, a: int, b: int)
    requires
        0 <= a < b < upto <= perm.len(),
        perm[a] == v,
        perm[b] == v,
    ensures
        hits(perm, upto, v) >= 2,
    decreases upto,
{
    if b == upto - 1 {
        lemma_hits_positive(perm, upto - 1, v, a);
    } else {
        lemma_hits_twice(perm, upto - 1, v, a, b);
        lemma_hits_nonnegative(perm, upto - 1, v);
    }
}

/// Where every value occurs and `v` occurs twice, the values below `bound`
/// are hit at least `bound` times, and once more if `v` is among them.
proof fn lemma_below_at_least(perm: Seq<int>, n: int, bound: int, v: int)
    requires
        is_permutation(perm, n),
        0 <= bound <= n,
        0 <= v < n,
        hits(perm, n, v) >= 2,
    ensures
        below(perm, n, bound) >= bound + if v < bound {
            1int
        } else {
            0int
        },
    decreases bound,
{
    if bound > 0 {
        lemma_below_at_least(perm, n, bound - 1, v);
        let k = bound - 1;
        assert(perm.contains(k));
        let at = choose|at: int| 0 <= at < perm.len() && perm[at] == k;
        lemma_hits_positive(perm, n, k, at);
    }
}

/// A permutation has no room for a value that occurs twice.
proof fn lemma_no_room(perm: Seq<int>, n: int, a: int, b: int)
    requires
        is_permutation(perm, n),
        0 <= a < b < n,
    ensures
        perm[a] != perm[b],
{
    if perm[a] == perm[b] {
        let v = perm[a];
        lemma_hits_twice(perm, n, v, a, b);
        lemma_below_at_least(perm, n, n, v);
        lemma_hits_total(perm, n, n);
    }
}

/// Batch order independence: two batches that hold the same distinct keys
/// with the same leaves, in whatever arrangement, have the same effect.
pub proof fn law_batch_order_independent<H: Hasher>(
    h: H,
    store: Store,
    root: Option<Seq<u8>>,
    keys: Seq<Seq<u8>>,
    leaves: Seq<Seq<u8>>,
    perm: Seq<int>,
    keys2: Seq<Seq<u8>>,
    leaves2: Seq<Seq<u8>>,
)
    requires
        same_length(keys),
        distinct(keys),
        keys.len() == leaves.len(),
        is_permutation(perm, keys.len() as int),
        keys2.len() == keys.len(),
        leaves2.len() == keys.len(),
        forall|i: int| 0 <= i < keys.len() ==> #[trigger] keys2[i] == keys[perm[i]],
        forall|i: int| 0 <= i < keys.len() ==> #[trigger] leaves2[i] == leaves[perm[i]],
    ensures
        inserts_spec(h, store, root, sorted_pairs(keys2, leaves2)) == inserts_spec(
            h,
            store,
            root,
            sorted_pairs(keys, leaves),
        ),
{
    lemma_sorted_pairs_permuted(keys, leaves, perm, keys2, leaves2);
}

/// The buffers that an update writes clash neither with each other nor
/// with what the store holds.
pub open spec fn clean<H: Hasher>(h: H, store: Store, change: Result<Change, ErrorKind>) -> bool {
    change is Ok ==> collision_free(h, store.values() + change->Ok_0.writes.to_set())
}

/// What holds of the tree after the update `change`: the update went
/// through, the store kept what it held and is content-addressed, and the
/// new tree is sound.
pub open spec fn settled<H: Hasher>(h: H, store: Store, change: Result<Change, ErrorKind>) -> bool {
    &&& change is Ok
    &&& store.submap_of(apply_writes(h, store, change->Ok_0.writes))
    &&& content_addressed(h, apply_writes(h, store, change->Ok_0.writes))
    &&& tree_sound(apply_writes(h, store, change->Ok_0.writes), change->Ok_0.root, 256)
    &&& forall|b: Seq<u8>|
        apply_writes(h, store, change->Ok_0.writes).values().contains(b) ==> #[trigger] (
        store.values() + change->Ok_0.writes.to_set()).contains(b)
}

/// What a walk along `k` finds in the tree after the update `change`.
pub open spec fn walk_after<H: Hasher>(
    h: H,
    store: Store,
    change: Result<Change, ErrorKind>,
    k: Seq<bool>,
) -> Result<Option<Seq<u8>>, ErrorKind> {
    tree_walk(apply_writes(h, store, change->Ok_0.writes), change->Ok_0.root, k)
}

/// A lookup of a 32-byte key is the walk along its bits.
pub proof fn lemma_get_is_walk(store: Store, root: Option<Seq<u8>>, key: Seq<u8>)
    requires
        key.len() == 32,
    ensures
        get_spec(store, root, key) == tree_walk(store, root, bits_of(key)),
{
    lemma_key_bits(key);
    if root is Some {
        lemma_find_is_walk(store, root->0, key_bits(key));
    }
}

/// One insert into a sound tree: the tree stays sound, and a walk finds the
/// new leaf along the bits of the key and what it found before elsewhere.
#[verifier::rlimit(30)]
pub proof fn lemma_insert_step<H: Hasher>(
    h: H,
    store: Store,
    root: Option<Seq<u8>>,
    key: Seq<u8>,
    leaf: Seq<u8>,
    k: Seq<bool>,
)
    requires
        content_addressed(h, store),
        tree_sound(store, root, 256),
        key.len() == 32,
        leaf.len() == 32,
        k.len() == 256,
        clean(h, store, insert_spec(h, store, root, key, leaf)),
    ensures
        settled(h, store, insert_spec(h, store, root, key, leaf)),
        insert_spec(h, store, root, key, leaf)->Ok_0.root is Some,
        walk_after(h, store, insert_spec(h, store, root, key, leaf), k) == (if k == bits_of(key) {
            Ok::<Option<Seq<u8>>, ErrorKind>(Some(leaf))
        } else {
            tree_walk(store, root, k)
        }),
{
    lemma_key_bits(key);
    let bits = key_bits(key);
    match root {
        Some(r) => {
            assert(put_clean(h, store, r, bits, leaf));
            lemma_put(h, store, r, bits, leaf, k);
            lemma_apply_extends(h, store, put_writes(h, store, r, bits, leaf)->Ok_0);
        },
        None => {
            let fresh = UnitView { hash: leaf, bits };
            let node = NodeView::Soft(fresh);
            let buf = node.to_bytes();
            let w = seq![buf];
            lemma_apply_few(h, store, buf, buf);
            lemma_apply_extends(h, store, w);
            let after = apply_writes(h, store, w);
            assert(w[0] == buf);
            lemma_installed(h, after, node, 256);
            lemma_along_leaf(after, fresh, k);
        },
    }
}

/// One removal from a sound tree: the tree stays sound, and a walk finds
/// nothing along the bits of the key and what it found before elsewhere.
#[verifier::rlimit(30)]
pub proof fn lemma_remove_step<H: Hasher>(
    h: H,
    store: Store,
    root: Option<Seq<u8>>,
    key: Seq<u8>,
    k: Seq<bool>,
)
    requires
        content_addressed(h, store),
        tree_sound(store, root, 256),
        key.len() == 32,
        k.len() == 256,
        clean(h, store, remove_spec(h, store, root, key)),
    ensures
        settled(h, store, remove_spec(h, store, root, key)),
        walk_after(h, store, remove_spec(h, store, root, key), k) == (if k == bits_of(key) {
            Ok::<Option<Seq<u8>>, ErrorKind>(None)
        } else {
            tree_walk(store, root, k)
        }),
{
    lemma_key_bits(key);
    let bits = key_bits(key);
    match root {
        Some(r) => {
            assert(delete_clean(h, store, r, bits));
            lemma_delete(h, store, r, bits, k);
            let found = delete_writes(h, store, r, bits)->Ok_0;
            if found is Some {
                lemma_apply_extends(h, store, found->0);
            } else {
                lemma_apply_extends(h, store, Seq::empty());
            }
        },
        None => {
            lemma_apply_extends(h, store, Seq::empty());
        },
    }
}

/// The leaf of the last pair of `pairs` whose key has the bits `k`, or
/// `before` if there is none.
pub open spec fn latest(
    pairs: Seq<(Seq<u8>, Seq<u8>)>,
    k: Seq<bool>,
    before: Result<Option<Seq<u8>>, ErrorKind>,
) -> Result<Option<Seq<u8>>, ErrorKind>
    decreases pairs.len(),
{
    if pairs.len() == 0 {
        before
    } else if bits_of(pairs.last().0) == k {
        Ok(Some(pairs.last().1))
    } else {
        latest(pairs.drop_last(), k, before)
    }
}

/// Nothing, if a key of `gone` has the bits `k`, and `before` otherwise.
pub open spec fn unless_gone(
    gone: Seq<Seq<u8>>,
    k: Seq<bool>,
    before: Result<Option<Seq<u8>>, ErrorKind>,
) -> Result<Option<Seq<u8>>, ErrorKind>
    decreases gone.len(),
{
    if gone.len() == 0 {
        before
    } else if bits_of(gone.last()) == k {
        Ok(None)
    } else {
        unless_gone(gone.drop_last(), k, before)
    }
}

/// Every key and every leaf of `pairs` is 32 bytes long.
pub open spec fn all_hashes(pairs: Seq<(Seq<u8>, Seq<u8>)>) -> bool {
    forall|i: int|
        0 <= i < pairs.len() ==> (#[trigger] pairs[i]).0.len() == 32 && pairs[i].1.len() == 32
}

/// Every key of `keys` is 32 bytes long.
pub open spec fn all_keys(keys: Seq<Seq<u8>>) -> bool {
    forall|i: int| 0 <= i < keys.len() ==> (#[trigger] keys[i]).len() == 32
}

/// Up to any point of a run of inserts, no two buffers written or stored
/// collide.
pub open spec fn inserts_clean<H: Hasher>(
    h: H,
    store: Store,
    root: Option<Seq<u8>>,
    pairs: Seq<(Seq<u8>, Seq<u8>)>,
) -> bool {
    forall|j: int|
        0 <= j <= pairs.len() ==> clean(h, store, #[trigger] inserts_spec(h, store, root, pairs.take(j)))
}

/// Up to any point of a run of removals, no two buffers written or stored
/// collide.
pub open spec fn removes_clean<H: Hasher>(
    h: H,
    store: Store,
    root: Option<Seq<u8>>,
    keys: Seq<Seq<u8>>,
) -> bool {
    forall|j: int|
        0 <= j <= keys.len() ==> clean(h, store, #[trigger] removes_spec(h, store, root, keys.take(j)))
}

/// A store that holds all of a second, which holds all of a third, holds
/// all of the third.
proof fn lemma_submap_chain(first: Store, second: Store, third: Store)
    requires
        first.submap_of(second),
        second.submap_of(third),
    ensures
        first.submap_of(third),
{
    assert forall|x: Seq<u8>| #[trigger] first.dom().contains(x) implies third.dom().contains(x)
        && first[x] == third[x] by {
        assert(second.dom().contains(x));
        assert(first[x] == second[x]);
        assert(third.dom().contains(x));
        assert(second[x] == third[x]);
    }
}

/// A set of buffers in which nothing collides has no collision in any part
/// of it.
proof fn lemma_collision_free_part<H: Hasher>(h: H, all: Set<Seq<u8>>, part: Set<Seq<u8>>)
    requires
        collision_free(h, all),
        forall|b: Seq<u8>| part.contains(b) ==> all.contains(b),
    ensures
        collision_free(h, part),
{
}

/// What the store holds after the first writes of a run, and what the next
/// step writes, is held or written by the run.
#[verifier::rlimit(30)]
proof fn lemma_step_within<H: Hasher>(
    h: H,
    store: Store,
    done: Seq<Seq<u8>>,
    step: Seq<Seq<u8>>,
)
    requires
        collision_free(h, store.values() + (done + step).to_set()),
        forall|b: Seq<u8>|
            apply_writes(h, store, done).values().contains(b) ==> #[trigger] (store.values()
                + done.to_set()).contains(b),
    ensures
        collision_free(h, apply_writes(h, store, done).values() + step.to_set()),
        forall|b: Seq<u8>|
            (apply_writes(h, store, done).values() + step.to_set()).contains(b) ==> #[trigger] (
            store.values() + (done + step).to_set()).contains(b),
{
    let all = store.values() + (done + step).to_set();
    let part = apply_writes(h, store, done).values() + step.to_set();
    assert forall|b: Seq<u8>| part.contains(b) implies #[trigger] all.contains(b) by {
        if step.to_set().contains(b) {
            let i = choose|i: int| 0 <= i < step.len() && step[i] == b;
            assert((done + step)[done.len() + i] == b);
        } else {
            assert((store.values() + done.to_set()).contains(b));
            if done.to_set().contains(b) {
                let i = choose|i: int| 0 <= i < done.len() && done[i] == b;
                assert((done + step)[i] == b);
            }
        }
    }
    lemma_collision_free_part(h, all, part);
}

/// A run of inserts into a sound tree: the tree stays sound, and a walk
/// finds the leaf of the last pair with the bits of its key, or what it
/// found before if there is none.
#[verifier::rlimit(30)]
pub proof fn lemma_inserts_run<H: Hasher>(
    h: H,
    store: Store,
    root: Option<Seq<u8>>,
    pairs: Seq<(Seq<u8>, Seq<u8>)>,
    k: Seq<bool>,
)
    requires
        content_addressed(h, store),
        tree_sound(store, root, 256),
        all_hashes(pairs),
        k.len() == 256,
        inserts_clean(h, store, root, pairs),
    ensures
        settled(h, store, inserts_spec(h, store, root, pairs)),
        pairs.len() > 0 ==> inserts_spec(h, store, root, pairs)->Ok_0.root is Some,
        walk_after(h, store, inserts_spec(h, store, root, pairs), k) == latest(
            pairs,
            k,
            tree_walk(store, root, k),
        ),
    decreases pairs.len(),
{
    if pairs.len() == 0 {
        assert(pairs.take(0) =~= pairs);
        assert(clean(h, store, inserts_spec(h, store, root, pairs.take(0))));
        lemma_apply_extends(h, store, Seq::empty());
    } else {
        let head = pairs.drop_last();
        let (key, leaf) = pairs.last();
        assert(pairs[pairs.len() - 1] == pairs.last());
        assert(all_hashes(head)) by {
            assert forall|i: int| 0 <= i < head.len() implies (#[trigger] head[i]).0.len() == 32
                && head[i].1.len() == 32 by {
                assert(head[i] == pairs[i]);
            }
        }
        assert(inserts_clean(h, store, root, head)) by {
            assert forall|j: int| 0 <= j <= head.len() implies clean(
                h,
                store,
                #[trigger] inserts_spec(h, store, root, head.take(j)),
            ) by {
                assert(head.take(j) =~= pairs.take(j));
            }
        }
        lemma_inserts_run(h, store, root, head, k);
        let c = inserts_spec(h, store, root, head)->Ok_0;
        let mid = apply_writes(h, store, c.writes);
        let step = insert_spec(h, mid, c.root, key, leaf);
        assert(pairs.take(pairs.len() as int) =~= pairs);
        assert(clean(h, mid, step)) by {
            if step is Ok {
                let d = step->Ok_0;
                assert(inserts_spec(h, store, root, pairs)->Ok_0.writes == c.writes + d.writes);
                lemma_step_within(h, store, c.writes, d.writes);
            }
        }
        lemma_insert_step(h, mid, c.root, key, leaf, k);
        let d = step->Ok_0;
        lemma_apply_concat(h, store, c.writes, d.writes);
        lemma_step_within(h, store, c.writes, d.writes);
        let after = apply_writes(h, mid, d.writes);
        assert forall|b: Seq<u8>| after.values().contains(b) implies #[trigger] (store.values() + (
        c.writes + d.writes).to_set()).contains(b) by {
            assert((mid.values() + d.writes.to_set()).contains(b));
        }
        lemma_submap_chain(store, mid, after);
        let whole = inserts_spec(h, store, root, pairs);
        assert(whole is Ok);
        assert(whole->Ok_0.writes == c.writes + d.writes);
        assert(whole->Ok_0.root == d.root);
        assert(apply_writes(h, store, whole->Ok_0.writes) == after);
    }
}

/// A run of removals from a sound tree: the tree stays sound, and a walk
/// finds nothing along the bits of a removed key and what it found before
/// elsewhere.
#[verifier::rlimit(30)]
pub proof fn lemma_removes_run<H: Hasher>(
    h: H,
    store: Store,
    root: Option<Seq<u8>>,
    keys: Seq<Seq<u8>>,
    k: Seq<bool>,
)
    requires
        content_addressed(h, store),
        tree_sound(store, root, 256),
        all_keys(keys),
        k.len() == 256,
        removes_clean(h, store, root, keys),
    ensures
        settled(h, store, removes_spec(h, store, root, keys)),
        walk_after(h, store, removes_spec(h, store, root, keys), k) == unless_gone(
            keys,
            k,
            tree_walk(store, root, k),
        ),
    decreases keys.len(),
{
    if keys.len() == 0 {
        assert(keys.take(0) =~= keys);
        assert(clean(h, store, removes_spec(h, store, root, keys.take(0))));
        lemma_apply_extends(h, store, Seq::empty());
    } else {
        let head = keys.drop_last();
        let key = keys.last();
        assert(keys[keys.len() - 1] == key);
        assert(all_keys(head)) by {
            assert forall|i: int| 0 <= i < head.len() implies (#[trigger] head[i]).len() == 32 by {
                assert(head[i] == keys[i]);
            }
        }
        assert(removes_clean(h, store, root, head)) by {
            assert forall|j: int| 0 <= j <= head.len() implies clean(
                h,
                store,
                #[trigger] removes_spec(h, store, root, head.take(j)),
            ) by {
                assert(head.take(j) =~= keys.take(j));
            }
        }
        lemma_removes_run(h, store, root, head, k);
        let c = removes_spec(h, store, root, head)->Ok_0;
        let mid = apply_writes(h, store, c.writes);
        let step = remove_spec(h, mid, c.root, key);
        assert(keys.take(keys.len() as int) =~= keys);
        assert(clean(h, mid, step)) by {
            if step is Ok {
                let d = step->Ok_0;
                assert(removes_spec(h, store, root, keys)->Ok_0.writes == c.writes + d.writes);
                lemma_step_within(h, store, c.writes, d.writes);
            }
        }
        lemma_remove_step(h, mid, c.root, key, k);
        let d = step->Ok_0;
        lemma_apply_concat(h, store, c.writes, d.writes);
        lemma_step_within(h, store, c.writes, d.writes);
        let after = apply_writes(h, mid, d.writes);
        assert forall|b: Seq<u8>| after.values().contains(b) implies #[trigger] (store.values() + (
        c.writes + d.writes).to_set()).contains(b) by {
            assert((mid.values() + d.writes.to_set()).contains(b));
        }
        lemma_submap_chain(store, mid, after);
        let whole = removes_spec(h, store, root, keys);
        assert(whole is Ok);
        assert(whole->Ok_0.writes == c.writes + d.writes);
        assert(whole->Ok_0.root == d.root);
        assert(apply_writes(h, store, whole->Ok_0.writes) == after);
    }
}

/// The last pair with a given key is the latest for the bits of that key.
proof fn lemma_latest_hit(
    pairs: Seq<(Seq<u8>, Seq<u8>)>,
    i: int,
    before: Result<Option<Seq<u8>>, ErrorKind>,
)
    requires
        all_hashes(pairs),
        0 <= i < pairs.len(),
        forall|j: int| i < j < pairs.len() ==> (#[trigger] pairs[j]).0 != pairs[i].0,
    ensures
        latest(pairs, bits_of(pairs[i].0), before) == Ok::<Option<Seq<u8>>, ErrorKind>(
            Some(pairs[i].1),
        ),
    decreases pairs.len(),
{
    let last = pairs.len() - 1;
    assert(pairs.last() == pairs[last]);
    if i < last {
        let head = pairs.drop_last();
        assert(pairs[last].0 != pairs[i].0);
        if bits_of(pairs[last].0) == bits_of(pairs[i].0) {
            lemma_bits_tell_keys(pairs[last].0, pairs[i].0);
        }
        assert(head[i] == pairs[i]);
        assert(all_hashes(head)) by {
            assert forall|j: int| 0 <= j < head.len() implies (#[trigger] head[j]).0.len() == 32
                && head[j].1.len() == 32 by {
                assert(head[j] == pairs[j]);
            }
        }
        assert forall|j: int| i < j < head.len() implies (#[trigger] head[j]).0 != head[i].0 by {
            assert(head[j] == pairs[j]);
        }
        lemma_latest_hit(head, i, before);
    }
}

/// Where the latest leaf for some bits is a leaf, a pair has a key with
/// those bits.
proof fn lemma_latest_from(pairs: Seq<(Seq<u8>, Seq<u8>)>, k: Seq<bool>)
    ensures
        latest(pairs, k, Ok(None)) is Ok,
        latest(pairs, k, Ok(None))->Ok_0 is Some ==> exists|i: int|
            0 <= i < pairs.len() && bits_of((#[trigger] pairs[i]).0) == k,
    decreases pairs.len(),
{
    if pairs.len() > 0 {
        let last = pairs.len() - 1;
        assert(pairs.last() == pairs[last]);
        if bits_of(pairs[last].0) != k {
            let head = pairs.drop_last();
            lemma_latest_from(head, k);
            if latest(head, k, Ok(None))->Ok_0 is Some {
                let i = choose|i: int| 0 <= i < head.len() && bits_of((#[trigger] head[i]).0) == k;
                assert(pairs[i] == head[i]);
            }
        }
    }
}

/// Nothing is left along the bits of a removed key, and nothing comes to
/// be where nothing was.
proof fn lemma_unless_gone(
    gone: Seq<Seq<u8>>,
    k: Seq<bool>,
    before: Result<Option<Seq<u8>>, ErrorKind>,
    j: int,
)
    requires
        before == Ok::<Option<Seq<u8>>, ErrorKind>(None) || (0 <= j < gone.len() && bits_of(gone[j])
            == k),
    ensures
        unless_gone(gone, k, before) == Ok::<Option<Seq<u8>>, ErrorKind>(None),
    decreases gone.len(),
{
    if gone.len() > 0 {
        let last = gone.len() - 1;
        assert(gone.last() == gone[last]);
        if bits_of(gone[last]) != k {
            let head = gone.drop_last();
            if 0 <= j < gone.len() && bits_of(gone[j]) == k {
                assert(head[j] == gone[j]);
            }
            lemma_unless_gone(head, k, before, j);
        }
    }
}

/// Insert and lookup, one step: after a key is bound to a leaf in a sound
/// tree, a lookup of that key gives the leaf and a lookup of any other key
/// gives what it gave before; the tree is sound again.
pub proof fn law_insert_then_get<H: Hasher>(
    h: H,
    store: Store,
    root: Option<Seq<u8>>,
    key: Seq<u8>,
    leaf: Seq<u8>,
    other: Seq<u8>,
)
    requires
        content_addressed(h, store),
        tree_sound(store, root, 256),
        key.len() == 32,
        leaf.len() == 32,
        other.len() == 32,
        clean(h, store, insert_spec(h, store, root, key, leaf)),
    ensures
        settled(h, store, insert_spec(h, store, root, key, leaf)),
        get_spec(
            apply_writes(h, store, insert_spec(h, store, root, key, leaf)->Ok_0.writes),
            insert_spec(h, store, root, key, leaf)->Ok_0.root,
            other,
        ) == (if other == key {
            Ok::<Option<Seq<u8>>, ErrorKind>(Some(leaf))
        } else {
            get_spec(store, root, other)
        }),
{
    let c = insert_spec(h, store, root, key, leaf);
    lemma_key_bits(other);
    lemma_insert_step(h, store, root, key, leaf, bits_of(other));
    lemma_get_is_walk(store, root, other);
    lemma_get_is_walk(apply_writes(h, store, c->Ok_0.writes), c->Ok_0.root, other);
    if bits_of(other) == bits_of(key) {
        lemma_bits_tell_keys(other, key);
    }
}

/// Insert and lookup: after a run of inserts into a sound tree, a lookup
/// of a key gives the leaf that it was last bound to.
pub proof fn law_inserts_then_get<H: Hasher>(
    h: H,
    store: Store,
    root: Option<Seq<u8>>,
    pairs: Seq<(Seq<u8>, Seq<u8>)>,
    i: int,
)
    requires
        content_addressed(h, store),
        tree_sound(store, root, 256),
        all_hashes(pairs),
        inserts_clean(h, store, root, pairs),
        0 <= i < pairs.len(),
        forall|j: int| i < j < pairs.len() ==> (#[trigger] pairs[j]).0 != pairs[i].0,
    ensures
        settled(h, store, inserts_spec(h, store, root, pairs)),
        get_spec(
            apply_writes(h, store, inserts_spec(h, store, root, pairs)->Ok_0.writes),
            inserts_spec(h, store, root, pairs)->Ok_0.root,
            pairs[i].0,
        ) == Ok::<Option<Seq<u8>>, ErrorKind>(Some(pairs[i].1)),
{
    let c = inserts_spec(h, store, root, pairs);
    let key = pairs[i].0;
    lemma_key_bits(key);
    lemma_inserts_run(h, store, root, pairs, bits_of(key));
    lemma_latest_hit(pairs, i, tree_walk(store, root, bits_of(key)));
    lemma_get_is_walk(apply_writes(h, store, c->Ok_0.writes), c->Ok_0.root, key);
}

/// Remove and lookup: after a key is removed from a sound tree, a lookup
/// of that key gives nothing and a lookup of any other key gives what it
/// gave before; the tree is sound again.
pub proof fn law_remove_then_get<H: Hasher>(
    h: H,
    store: Store,
    root: Option<Seq<u8>>,
    key: Seq<u8>,
    other: Seq<u8>,
)
    requires
        content_addressed(h, store),
        tree_sound(store, root, 256),
        key.len() == 32,
        other.len() == 32,
        clean(h, store, remove_spec(h, store, root, key)),
    ensures
        settled(h, store, remove_spec(h, store, root, key)),
        get_spec(
            apply_writes(h, store, remove_spec(h, store, root, key)->Ok_0.writes),
            remove_spec(h, store, root, key)->Ok_0.root,
            other,
        ) == (if other == key {
            Ok::<Option<Seq<u8>>, ErrorKind>(None)
        } else {
            get_spec(store, root, other)
        }),
{
    let c = remove_spec(h, store, root, key);
    lemma_key_bits(other);
    lemma_remove_step(h, store, root, key, bits_of(other));
    lemma_get_is_walk(store, root, other);
    lemma_get_is_walk(apply_writes(h, store, c->Ok_0.writes), c->Ok_0.root, other);
    if bits_of(other) == bits_of(key) {
        lemma_bits_tell_keys(other, key);
    }
}

/// The empty tree again: after a run of inserts into the empty tree and a
/// run of removals that takes out every key inserted, in whatever order,
/// the root is absent.
#[verifier::rlimit(30)]
pub proof fn law_remove_all<H: Hasher>(
    h: H,
    store: Store,
    pairs: Seq<(Seq<u8>, Seq<u8>)>,
    gone: Seq<Seq<u8>>,
)
    requires
        content_addressed(h, store),
        all_hashes(pairs),
        all_keys(gone),
        forall|i: int|
            0 <= i < pairs.len() ==> exists|j: int|
                0 <= j < gone.len() && gone[j] == (#[trigger] pairs[i]).0,
        inserts_clean(h, store, None, pairs),
        inserts_spec(h, store, None, pairs) is Ok ==> removes_clean(
            h,
            apply_writes(h, store, inserts_spec(h, store, None, pairs)->Ok_0.writes),
            inserts_spec(h, store, None, pairs)->Ok_0.root,
            gone,
        ),
    ensures
        inserts_spec(h, store, None, pairs) is Ok,
        removes_spec(
            h,
            apply_writes(h, store, inserts_spec(h, store, None, pairs)->Ok_0.writes),
            inserts_spec(h, store, None, pairs)->Ok_0.root,
            gone,
        ) is Ok,
        removes_spec(
            h,
            apply_writes(h, store, inserts_spec(h, store, None, pairs)->Ok_0.writes),
            inserts_spec(h, store, None, pairs)->Ok_0.root,
            gone,
        )->Ok_0.root is None,
{
    let any = Seq::new(256, |i: int| false);
    lemma_inserts_run(h, store, None, pairs, any);
    let grown = inserts_spec(h, store, None, pairs)->Ok_0;
    let mid = apply_writes(h, store, grown.writes);
    lemma_removes_run(h, mid, grown.root, gone, any);
    let left = removes_spec(h, mid, grown.root, gone)->Ok_0;
    let after = apply_writes(h, mid, left.writes);
    if left.root is Some {
        let k = some_path(after, left.root->0, 256);
        lemma_some_path(after, left.root->0, 256);
        lemma_inserts_run(h, store, None, pairs, k);
        lemma_removes_run(h, mid, grown.root, gone, k);
        lemma_latest_from(pairs, k);
        let was = latest(pairs, k, Ok(None));
        if was->Ok_0 is Some {
            let i = choose|i: int| 0 <= i < pairs.len() && bits_of((#[trigger] pairs[i]).0) == k;
            let j = choose|j: int| 0 <= j < gone.len() && gone[j] == pairs[i].0;
            lemma_unless_gone(gone, k, was, j);
        } else {
            lemma_unless_gone(gone, k, was, 0);
        }
    }
}

} // verus!
