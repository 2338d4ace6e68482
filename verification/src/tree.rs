//! The tree engine: insert, lookup and removal over a storage backend, and
//! inclusion proofs.
use vstd::prelude::*;
use vstd::slice::{slice_subrange, slice_to_vec};
use crate::bits::{Bits, lemma_shift_tight};
use crate::database::Database;
use crate::errors::{ErrorKind, Errors};
use crate::hasher::{Hasher, digest_of};
use crate::model::{Change, ProofView, Store, apply_writes, delete_writes, find_spec, get_spec,
    gets_spec, insert_spec, inserts_spec, key_bits, lemma_apply_few, lemma_apply_push,
    lemma_descend, lemma_gets_step, lemma_inserts_step, lemma_removes_step, merkle_proof_spec,
    proof_entry, proof_root, proof_spec, put_writes, rebuild, remove_spec, removes_spec, root_of,
    sorted_keys, sorted_pairs, verify_spec, without};
use crate::node::{Node, NodeView, Unit, UnitView, cell_view, lemma_node_layout, lemma_node_parsed};
use crate::order::{get_sorted_indices, hashes_view, indices_view, is_sorted_order};
use crate::utils::{bytes_eq, slice_to_hash};
use crate::{DefaultDatabase, DefaultHasher, Result};

verus! {

/// A sparse Merkle tree over a storage backend `D`, hashed with `H`.
///
/// The tree itself holds no root: every operation takes the root to start
/// from and hands back the root to go on with, so that earlier roots stay
/// readable.
#[derive(Debug)]
pub struct Monotree<D = DefaultDatabase, H = DefaultHasher> {
    db: D,
    pub hasher: H,
}

/// What a root that a caller holds stands for.
pub open spec fn root_view(root: Option<&crate::Hash>) -> Option<Seq<u8>> {
    match root {
        Some(r) => Some(r@),
        None => None,
    }
}

/// What a hash that an operation hands back stands for.
pub open spec fn hash_view(hash: Option<crate::Hash>) -> Option<Seq<u8>> {
    match hash {
        Some(h) => Some(h@),
        None => None,
    }
}

/// What a proof that a caller holds stands for.
pub open spec fn proof_view(proof: Seq<(bool, Vec<u8>)>) -> ProofView {
    Seq::new(proof.len(), |i: int| (proof[i].0, (proof[i].1)@))
}

/// What a proof that a caller may hold stands for.
pub open spec fn given_proof_view(given: Option<&crate::Proof>) -> Option<ProofView> {
    match given {
        Some(p) => Some(proof_view(p@)),
        None => None,
    }
}

/// What the leaves that a batch of lookups hands back stand for.
pub open spec fn leaves_view(leaves: Seq<Option<crate::Hash>>) -> Seq<Option<Seq<u8>>> {
    Seq::new(leaves.len(), |i: int| hash_view(leaves[i]))
}

/// What removing a key did to a subtree.
pub enum Removal {
    /// The subtree does not hold the key; nothing was written.
    Missing,
    /// The key was all that the subtree held; nothing is left of it.
    Emptied,
    /// The subtree was rebuilt without the key under a new root.
    Moved(crate::Hash),
}

/// Whether the result `r` of a lookup of a proof is what `want` says. A
/// failure of the backend may come in place of any outcome.
pub open spec fn proves(
    r: Result<Option<crate::Proof>>,
    want: core::result::Result<Option<ProofView>, ErrorKind>,
) -> bool {
    match r {
        Ok(Some(p)) => want == Ok::<Option<ProofView>, ErrorKind>(Some(proof_view(p@))),
        Ok(None) => want == Ok::<Option<ProofView>, ErrorKind>(None),
        Err(e) => e.kind() == ErrorKind::Backend || want == Err::<Option<ProofView>, ErrorKind>(
            e.kind(),
        ),
    }
}

/// Whether the result `r` of an update and the store after it are what
/// `want` says. A failure of the backend may come in place of any outcome.
pub open spec fn meets<H: Hasher>(
    r: Result<Option<crate::Hash>>,
    want: core::result::Result<Change, ErrorKind>,
    h: H,
    before: Store,
    after: Store,
) -> bool {
    match r {
        Ok(root) => {
            &&& want is Ok
            &&& want->Ok_0.root == hash_view(root)
            &&& after == apply_writes(h, before, want->Ok_0.writes)
        },
        Err(e) => e.kind() == ErrorKind::Backend || want == Err::<Change, ErrorKind>(e.kind()),
    }
}

/// Whether the result `r` of a lookup is what `want` says. A failure of the
/// backend may come in place of any outcome.
pub open spec fn answers(
    r: Result<Option<crate::Hash>>,
    want: core::result::Result<Option<Seq<u8>>, ErrorKind>,
) -> bool {
    match r {
        Ok(leaf) => want == Ok::<Option<Seq<u8>>, ErrorKind>(hash_view(leaf)),
        Err(e) => e.kind() == ErrorKind::Backend || want == Err::<Option<Seq<u8>>, ErrorKind>(
            e.kind(),
        ),
    }
}

impl Default for Monotree<DefaultDatabase, DefaultHasher> {
    /// A tree over an empty store in memory, hashed with BLAKE3.
    fn default() -> (tree: Self)
        ensures
            tree.store() == Map::<Seq<u8>, Seq<u8>>::empty(),
    {
        Self::from_parts(DefaultDatabase::new("monotree"), DefaultHasher::new())
    }
}

impl<D: Database, H: Hasher> Monotree<D, H> {
    /// The backend of the tree.
    pub closed spec fn backend(&self) -> D {
        self.db
    }

    /// What the backend of the tree holds.
    pub open spec fn store(&self) -> Store {
        self.backend().contents()
    }

    /// The hasher of the tree.
    pub closed spec fn hash_fn(&self) -> H {
        self.hasher
    }

    /// The hasher of the tree, for callers that cannot read the field.
    pub fn get_hasher(&self) -> (hasher: &H)
        ensures
            *hasher == self.hash_fn(),
    {
        &self.hasher
    }

    /// A tree over the backend `db`, hashed with `hasher`.
    pub fn from_parts(db: D, hasher: H) -> (tree: Self)
        ensures
            tree.store() == db.contents(),
            tree.hash_fn() == hasher,
    {
        Monotree { db, hasher }
    }

    /// A tree over the backend that `Database::new` opens at `dbpath`,
    /// hashed with the hasher that `Hasher::new` makes.
    pub fn new(dbpath: &str) -> (tree: Self)
        ensures
            tree.backend().fresh_at(dbpath@),
            tree.hash_fn() == H::made(),
    {
        let db = D::new(dbpath);
        let hasher = H::new();
        Monotree { db, hasher }
    }

    /// Binds `key` to `leaf` in the tree under `root` and returns the new
    /// root. The nodes of the old tree stay in the store.
    #[verifier::rlimit(30)]
    pub fn insert(&mut self, root: Option<&crate::Hash>, key: &crate::Hash, leaf: &crate::Hash) -> (r:
        Result<Option<crate::Hash>>)
        ensures
            final(self).hash_fn() == old(self).hash_fn(),
            D::never_fails() && r is Err ==> r->Err_0.kind() != ErrorKind::Backend,
            r is Ok ==> r->Ok_0 is Some,
            meets(
                r,
                insert_spec(old(self).hash_fn(), old(self).store(), root_view(root), key@, leaf@),
                old(self).hash_fn(),
                old(self).store(),
                final(self).store(),
            ),
    {
        let ghost h = self.hasher;
        let ghost before = self.store();
        match root {
            None => {
                let unit = Unit { hash: leaf.as_slice(), bits: Bits::new(key.as_slice()) };
                let r = self.put_node(Node::new(Some(unit), None));
                proof {
                    let buf = NodeView::Soft(UnitView { hash: leaf@, bits: key_bits(key@) }).to_bytes();
                    lemma_apply_few(h, before, buf, buf);
                }
                match r {
                    Ok(hash) => Ok(Some(hash)),
                    Err(e) => Err(e),
                }
            },
            Some(root) => {
                let r = self.put(root.as_slice(), Bits::new(key.as_slice()), leaf.as_slice());
                match r {
                    Ok(hash) => Ok(Some(hash)),
                    Err(e) => Err(e),
                }
            },
        }
    }

    /// Serializes `node`, hashes it and stores it under its hash.
    fn put_node(&mut self, node: Node) -> (r: Result<crate::Hash>)
        ensures
            final(self).hash_fn() == old(self).hash_fn(),
            D::never_fails() && r is Err ==> r->Err_0.kind() != ErrorKind::Backend,
            match r {
                Ok(hash) => {
                    &&& node.encodable()
                    &&& hash@ == digest_of(old(self).hash_fn(), node@.to_bytes())
                    &&& final(self).store() == old(self).store().insert(hash@, node@.to_bytes())
                },
                Err(e) => e.kind() == ErrorKind::Backend || (e.kind() == ErrorKind::Invariant
                    && !node.encodable()),
            },
    {
        let bytes = node.to_bytes()?;
        let hash = self.hasher.digest(bytes.as_slice());
        self.db.put(hash.as_slice(), bytes)?;
        Ok(hash)
    }

    /// Inserts the key suffix `bits` with `leaf` into the subtree under
    /// `root` and returns the subtree's new root. Each call writes at least
    /// one node.
    #[verifier::rlimit(30)]
    fn put(&mut self, root: &[u8], bits: Bits, leaf: &[u8]) -> (r: Result<crate::Hash>)
        requires
            bits@.tight(),
        ensures
            final(self).hash_fn() == old(self).hash_fn(),
            D::never_fails() && r is Err ==> r->Err_0.kind() != ErrorKind::Backend,
            match r {
                Ok(hash) => {
                    let w = put_writes(old(self).hash_fn(), old(self).store(), root@, bits@, leaf@);
                    &&& w is Ok
                    &&& root_of(old(self).hash_fn(), w->Ok_0) == Some(hash@)
                    &&& final(self).store() == apply_writes(
                        old(self).hash_fn(),
                        old(self).store(),
                        w->Ok_0,
                    )
                },
                Err(e) => e.kind() == ErrorKind::Backend || put_writes(
                    old(self).hash_fn(),
                    old(self).store(),
                    root@,
                    bits@,
                    leaf@,
                ) == Err::<Seq<Seq<u8>>, ErrorKind>(e.kind()),
            },
        decreases bits@.len(),
    {
        let ghost h = self.hasher;
        let ghost before = self.store();
        let bytes = match self.db.get(root)? {
            Some(bytes) => bytes,
            None => {
                return Err(Errors::with_kind(ErrorKind::Invariant, "put(): node not in store"));
            },
        };
        let (lc, rc) = Node::cells_from_bytes(bytes.as_slice(), bits.first())?;
        proof {
            lemma_node_parsed(bytes@);
        }
        let unit = lc.unwrap();
        if unit.bits.len() == 0 {
            return Err(
                Errors::with_kind(ErrorKind::Invariant, "put(): edge with an empty label"),
            );
        }
        proof {
            lemma_descend(before, root@, bits@);
        }
        let n = Bits::len_common_bits(&unit.bits, &bits);
        let ghost other = cell_view(rc);
        if n == 0 {
            let fresh = Unit { hash: leaf, bits };
            proof {
                let buf = NodeView::of_cells(Some(unit@), Some(fresh@)).to_bytes();
                lemma_apply_few(h, before, buf, buf);
            }
            self.put_node(Node::new(Some(unit), Some(fresh)))
        } else if n == bits.len() {
            let fresh = Unit { hash: leaf, bits };
            proof {
                let buf = NodeView::of_cells(Some(fresh@), other).to_bytes();
                lemma_apply_few(h, before, buf, buf);
            }
            self.put_node(Node::new(Some(fresh), rc))
        } else if n == unit.bits.len() {
            proof {
                lemma_shift_tight(bits@, n as int, false);
            }
            let child = self.put(unit.hash, bits.shift(n, false), leaf)?;
            let ghost wc = put_writes(h, before, unit@.hash, bits@.shift(n as int, false), leaf@)->Ok_0;
            let up = Unit { hash: child.as_slice(), bits: unit.bits };
            proof {
                let top = NodeView::of_cells(Some(up@), other).to_bytes();
                lemma_apply_push(h, before, wc, top);
            }
            self.put_node(Node::new(Some(up), rc))
        } else {
            proof {
                lemma_shift_tight(bits@, n as int, false);
                lemma_shift_tight(unit@.bits, n as int, false);
                lemma_shift_tight(unit@.bits, n as int, true);
            }
            let ru = Unit { hash: leaf, bits: bits.shift(n, false) };
            let lu = Unit { hash: unit.hash, bits: unit.bits.shift(n, false) };
            let ghost split = NodeView::of_cells(Some(lu@), Some(ru@)).to_bytes();
            let hash = self.put_node(Node::new(Some(lu), Some(ru)))?;
            let up = Unit { hash: hash.as_slice(), bits: unit.bits.shift(n, true) };
            proof {
                let top = NodeView::of_cells(Some(up@), other).to_bytes();
                lemma_apply_few(h, before, split, top);
            }
            self.put_node(Node::new(Some(up), rc))
        }
    }

    /// The leaf that `key` is bound to in the tree under `root`, if any.
    /// For the empty tree the backend is not asked.
    pub fn get(&mut self, root: Option<&crate::Hash>, key: &crate::Hash) -> (r: Result<
        Option<crate::Hash>,
    >)
        ensures
            final(self).hash_fn() == old(self).hash_fn(),
            D::never_fails() && r is Err ==> r->Err_0.kind() != ErrorKind::Backend,
            final(self).store() == old(self).store(),
            root is None ==> r is Ok && r->Ok_0 is None,
            answers(r, get_spec(old(self).store(), root_view(root), key@)),
    {
        match root {
            None => Ok(None),
            Some(root) => self.find_key(root.as_slice(), Bits::new(key.as_slice())),
        }
    }

    /// Follows the key suffix `bits` down the subtree under `root`.
    #[verifier::rlimit(30)]
    fn find_key(&mut self, root: &[u8], bits: Bits) -> (r: Result<Option<crate::Hash>>)
        requires
            bits@.tight(),
        ensures
            final(self).hash_fn() == old(self).hash_fn(),
            D::never_fails() && r is Err ==> r->Err_0.kind() != ErrorKind::Backend,
            final(self).store() == old(self).store(),
            answers(r, find_spec(old(self).store(), root@, bits@)),
        decreases bits@.len(),
    {
        let ghost before = self.store();
        let bytes = match self.db.get(root)? {
            Some(bytes) => bytes,
            None => {
                return Err(Errors::with_kind(ErrorKind::Invariant, "find_key(): node not in store"));
            },
        };
        let (cell, _) = Node::cells_from_bytes(bytes.as_slice(), bits.first())?;
        proof {
            lemma_node_parsed(bytes@);
        }
        let unit = cell.unwrap();
        if unit.bits.len() == 0 {
            return Err(
                Errors::with_kind(ErrorKind::Invariant, "find_key(): edge with an empty label"),
            );
        }
        proof {
            lemma_descend(before, root@, bits@);
        }
        let n = Bits::len_common_bits(&unit.bits, &bits);
        if n == bits.len() {
            Ok(Some(slice_to_hash(unit.hash)))
        } else if n == unit.bits.len() {
            proof {
                lemma_shift_tight(bits@, n as int, false);
            }
            self.find_key(unit.hash, bits.shift(n, false))
        } else {
            Ok(None)
        }
    }

    /// Unbinds `key` in the tree under `root` and returns the new root:
    /// `None` if the tree is now empty, the old root if the tree did not
    /// hold the key. For the empty tree the backend is not asked.
    #[verifier::rlimit(30)]
    pub fn remove(&mut self, root: Option<&crate::Hash>, key: &crate::Hash) -> (r: Result<
        Option<crate::Hash>,
    >)
        ensures
            final(self).hash_fn() == old(self).hash_fn(),
            D::never_fails() && r is Err ==> r->Err_0.kind() != ErrorKind::Backend,
            root is None ==> r is Ok && r->Ok_0 is None && final(self).store() == old(self).store(),
            meets(
                r,
                remove_spec(old(self).hash_fn(), old(self).store(), root_view(root), key@),
                old(self).hash_fn(),
                old(self).store(),
                final(self).store(),
            ),
    {
        match root {
            None => Ok(None),
            Some(root) => {
                match self.delete_key(root.as_slice(), Bits::new(key.as_slice()))? {
                    Removal::Missing => Ok(Some(*root)),
                    Removal::Emptied => Ok(None),
                    Removal::Moved(hash) => Ok(Some(hash)),
                }
            },
        }
    }

    /// Removes the key suffix `bits` from the subtree under `root`.
    #[verifier::rlimit(30)]
    fn delete_key(&mut self, root: &[u8], bits: Bits) -> (r: Result<Removal>)
        requires
            bits@.tight(),
        ensures
            final(self).hash_fn() == old(self).hash_fn(),
            D::never_fails() && r is Err ==> r->Err_0.kind() != ErrorKind::Backend,
            match r {
                Ok(removal) => match delete_writes(
                    old(self).hash_fn(),
                    old(self).store(),
                    root@,
                    bits@,
                ) {
                    Ok(None) => removal is Missing && final(self).store() == old(self).store(),
                    Ok(Some(w)) => {
                        &&& final(self).store() == apply_writes(
                            old(self).hash_fn(),
                            old(self).store(),
                            w,
                        )
                        &&& match removal {
                            Removal::Missing => false,
                            Removal::Emptied => w.len() == 0,
                            Removal::Moved(hash) => root_of(old(self).hash_fn(), w) == Some(hash@),
                        }
                    },
                    Err(_) => false,
                },
                Err(e) => e.kind() == ErrorKind::Backend || delete_writes(
                    old(self).hash_fn(),
                    old(self).store(),
                    root@,
                    bits@,
                ) == Err::<Option<Seq<Seq<u8>>>, ErrorKind>(e.kind()),
            },
        decreases bits@.len(),
    {
        let ghost h = self.hasher;
        let ghost before = self.store();
        let bytes = match self.db.get(root)? {
            Some(bytes) => bytes,
            None => {
                return Err(
                    Errors::with_kind(ErrorKind::Invariant, "delete_key(): node not in store"),
                );
            },
        };
        let (lc, rc) = Node::cells_from_bytes(bytes.as_slice(), bits.first())?;
        proof {
            lemma_node_parsed(bytes@);
        }
        let unit = lc.unwrap();
        if unit.bits.len() == 0 {
            return Err(
                Errors::with_kind(ErrorKind::Invariant, "delete_key(): edge with an empty label"),
            );
        }
        proof {
            lemma_descend(before, root@, bits@);
        }
        let n = Bits::len_common_bits(&unit.bits, &bits);
        let ghost other = cell_view(rc);
        if n == bits.len() {
            self.put_rest(rc)
        } else if n == unit.bits.len() {
            proof {
                lemma_shift_tight(bits@, n as int, false);
            }
            match self.delete_key(unit.hash, bits.shift(n, false))? {
                Removal::Missing => Ok(Removal::Missing),
                Removal::Emptied => self.put_rest(rc),
                Removal::Moved(child) => {
                    let ghost wc = delete_writes(
                        h,
                        before,
                        unit@.hash,
                        bits@.shift(n as int, false),
                    )->Ok_0->0;
                    let up = Unit { hash: child.as_slice(), bits: unit.bits };
                    proof {
                        let top = NodeView::of_cells(Some(up@), other).to_bytes();
                        lemma_apply_push(h, before, wc, top);
                    }
                    let hash = self.put_node(Node::new(Some(up), rc))?;
                    Ok(Removal::Moved(hash))
                },
            }
        } else {
            Ok(Removal::Missing)
        }
    }

    /// Writes what is left of a node that lost one child: a soft node of
    /// the other child, or nothing if there is none.
    #[verifier::rlimit(30)]
    fn put_rest(&mut self, rest: crate::node::Cell) -> (r: Result<Removal>)
        requires
            rest is Some ==> rest->0@.valid(),
        ensures
            final(self).hash_fn() == old(self).hash_fn(),
            D::never_fails() && r is Err ==> r->Err_0.kind() != ErrorKind::Backend,
            match r {
                Ok(removal) => {
                    let w = without(cell_view(rest));
                    &&& final(self).store() == apply_writes(
                        old(self).hash_fn(),
                        old(self).store(),
                        w,
                    )
                    &&& match removal {
                        Removal::Missing => false,
                        Removal::Emptied => w.len() == 0,
                        Removal::Moved(hash) => root_of(old(self).hash_fn(), w) == Some(hash@),
                    }
                },
                Err(e) => e.kind() == ErrorKind::Backend,
            },
    {
        match rest {
            Some(unit) => {
                proof {
                    let buf = NodeView::Soft(unit@).to_bytes();
                    lemma_apply_few(self.hasher, self.store(), buf, buf);
                }
                let hash = self.put_node(Node::new(None, Some(unit)))?;
                Ok(Removal::Moved(hash))
            },
            None => Ok(Removal::Emptied),
        }
    }

    /// Binds each key to the leaf at the same position, visiting the keys
    /// in ascending order, and returns the final root. Leaves beyond the
    /// last key are not used. The backend is told
    /// where the run of writes begins and ends.
    #[verifier::rlimit(30)]
    pub fn inserts(&mut self, root: Option<&crate::Hash>, keys: &[crate::Hash], leaves: &[crate::Hash]) -> (r:
        Result<Option<crate::Hash>>)
        requires
            keys@.len() <= leaves@.len(),
        ensures
            final(self).hash_fn() == old(self).hash_fn(),
            D::never_fails() && r is Err ==> r->Err_0.kind() != ErrorKind::Backend,
            meets(
                r,
                inserts_spec(
                    old(self).hash_fn(),
                    old(self).store(),
                    root_view(root),
                    sorted_pairs(hashes_view(keys@), hashes_view(leaves@)),
                ),
                old(self).hash_fn(),
                old(self).store(),
                final(self).store(),
            ),
    {
        let ghost h = self.hash_fn();
        let ghost before = self.store();
        let ghost first = root_view(root);
        let ghost pairs = sorted_pairs(hashes_view(keys@), hashes_view(leaves@));
        let indices = get_sorted_indices(keys);
        self.db.init_batch()?;
        let mut cur: Option<crate::Hash> = match root {
            Some(r) => Some(*r),
            None => None,
        };
        let mut k: usize = 0;
        assert(pairs.take(0) =~= Seq::<(Seq<u8>, Seq<u8>)>::empty());
        while k < indices.len()
            invariant
                k <= indices@.len(),
                indices@.len() == keys@.len(),
                keys@.len() <= leaves@.len(),
                pairs.len() == keys@.len(),
                is_sorted_order(hashes_view(keys@), indices_view(indices@)),
                forall|j: int|
                    0 <= j < pairs.len() ==> #[trigger] pairs[j] == (
                        keys@[indices@[j] as int]@,
                        leaves@[indices@[j] as int]@,
                    ),
                self.hash_fn() == h,
                h == old(self).hash_fn(),
                before == old(self).store(),
                first == root_view(root),
                inserts_spec(h, before, first, pairs.take(k as int)) is Ok,
                inserts_spec(h, before, first, pairs.take(k as int))->Ok_0.root == hash_view(cur),
                self.store() == apply_writes(
                    h,
                    before,
                    inserts_spec(h, before, first, pairs.take(k as int))->Ok_0.writes,
                ),
                pairs == sorted_pairs(hashes_view(keys@), hashes_view(leaves@)),
            decreases indices@.len() - k,
        {
            let i = indices[k];
            proof {
                assert(0 <= indices_view(indices@)[k as int] < keys@.len());
                assert(pairs[k as int] == (keys@[i as int]@, leaves@[i as int]@));
                lemma_inserts_step(h, before, first, pairs, k as int);
            }
            match self.insert(cur.as_ref(), &keys[i], &leaves[i]) {
                Ok(next) => {
                    cur = next;
                },
                Err(e) => {
                    return Err(e);
                },
            }
            k += 1;
        }
        assert(pairs.take(k as int) =~= pairs);
        self.db.finish_batch()?;
        Ok(cur)
    }

    /// Looks up each key in the tree under `root`. The leaves come in the
    /// order of `keys`.
    #[verifier::rlimit(30)]
    pub fn gets(&mut self, root: Option<&crate::Hash>, keys: &[crate::Hash]) -> (r: Result<
        Vec<Option<crate::Hash>>,
    >)
        ensures
            final(self).hash_fn() == old(self).hash_fn(),
            D::never_fails() && r is Err ==> r->Err_0.kind() != ErrorKind::Backend,
            final(self).store() == old(self).store(),
            root is None ==> r is Ok,
            match r {
                Ok(leaves) => gets_spec(old(self).store(), root_view(root), hashes_view(keys@))
                    == Ok::<Seq<Option<Seq<u8>>>, ErrorKind>(leaves_view(leaves@)),
                Err(e) => e.kind() == ErrorKind::Backend || gets_spec(
                    old(self).store(),
                    root_view(root),
                    hashes_view(keys@),
                ) == Err::<Seq<Option<Seq<u8>>>, ErrorKind>(e.kind()),
            },
    {
        let ghost before = self.store();
        let ghost h = self.hash_fn();
        let ghost first = root_view(root);
        let ghost kv = hashes_view(keys@);
        let mut leaves: Vec<Option<crate::Hash>> = Vec::new();
        let mut k: usize = 0;
        assert(kv.take(0) =~= Seq::<Seq<u8>>::empty());
        assert(leaves_view(leaves@) =~= Seq::<Option<Seq<u8>>>::empty());
        while k < keys.len()
            invariant
                k <= keys@.len(),
                kv == hashes_view(keys@),
                self.store() == before,
                self.hash_fn() == h,
                h == old(self).hash_fn(),
                before == old(self).store(),
                first == root_view(root),
                gets_spec(before, first, kv.take(k as int)) == Ok::<
                    Seq<Option<Seq<u8>>>,
                    ErrorKind,
                >(leaves_view(leaves@)),
            decreases keys@.len() - k,
        {
            let ghost found = leaves_view(leaves@);
            proof {
                lemma_gets_step(before, first, kv, k as int);
            }
            match self.get(root, &keys[k]) {
                Ok(leaf) => {
                    leaves.push(leaf);
                    assert(leaves_view(leaves@) =~= found.push(hash_view(leaf)));
                },
                Err(e) => {
                    return Err(e);
                },
            }
            k += 1;
        }
        assert(kv.take(k as int) =~= kv);
        Ok(leaves)
    }

    /// Unbinds each key, visiting the keys in ascending order, and returns
    /// the final root. The backend is told where the run of writes begins
    /// and ends.
    #[verifier::rlimit(30)]
    pub fn removes(&mut self, root: Option<&crate::Hash>, keys: &[crate::Hash]) -> (r: Result<
        Option<crate::Hash>,
    >)
        ensures
            final(self).hash_fn() == old(self).hash_fn(),
            D::never_fails() && r is Err ==> r->Err_0.kind() != ErrorKind::Backend,
            meets(
                r,
                removes_spec(
                    old(self).hash_fn(),
                    old(self).store(),
                    root_view(root),
                    sorted_keys(hashes_view(keys@)),
                ),
                old(self).hash_fn(),
                old(self).store(),
                final(self).store(),
            ),
    {
        let ghost h = self.hash_fn();
        let ghost before = self.store();
        let ghost first = root_view(root);
        let ghost sorted = sorted_keys(hashes_view(keys@));
        let indices = get_sorted_indices(keys);
        let mut cur: Option<crate::Hash> = match root {
            Some(r) => Some(*r),
            None => None,
        };
        self.db.init_batch()?;
        let mut k: usize = 0;
        assert(sorted.take(0) =~= Seq::<Seq<u8>>::empty());
        while k < indices.len()
            invariant
                k <= indices@.len(),
                indices@.len() == keys@.len(),
                sorted.len() == keys@.len(),
                is_sorted_order(hashes_view(keys@), indices_view(indices@)),
                forall|j: int|
                    0 <= j < sorted.len() ==> #[trigger] sorted[j] == keys@[indices@[j] as int]@,
                self.hash_fn() == h,
                h == old(self).hash_fn(),
                before == old(self).store(),
                first == root_view(root),
                removes_spec(h, before, first, sorted.take(k as int)) is Ok,
                removes_spec(h, before, first, sorted.take(k as int))->Ok_0.root == hash_view(cur),
                self.store() == apply_writes(
                    h,
                    before,
                    removes_spec(h, before, first, sorted.take(k as int))->Ok_0.writes,
                ),
                sorted == sorted_keys(hashes_view(keys@)),
            decreases indices@.len() - k,
        {
            let i = indices[k];
            proof {
                assert(0 <= indices_view(indices@)[k as int] < keys@.len());
                assert(sorted[k as int] == keys@[i as int]@);
                lemma_removes_step(h, before, first, sorted, k as int);
            }
            match self.remove(cur.as_ref(), &keys[i]) {
                Ok(next) => {
                    cur = next;
                },
                Err(e) => {
                    return Err(e);
                },
            }
            k += 1;
        }
        assert(sorted.take(k as int) =~= sorted);
        self.db.finish_batch()?;
        Ok(cur)
    }

    /// The inclusion proof for `key` in the tree under `root`; `None` if
    /// the tree does not hold the key. For the empty tree the backend is not
    /// asked.
    #[verifier::rlimit(30)]
    pub fn get_merkle_proof(&mut self, root: Option<&crate::Hash>, key: &crate::Hash) -> (r: Result<
        Option<crate::Proof>,
    >)
        ensures
            final(self).hash_fn() == old(self).hash_fn(),
            D::never_fails() && r is Err ==> r->Err_0.kind() != ErrorKind::Backend,
            final(self).store() == old(self).store(),
            root is None ==> r is Ok && r->Ok_0 is None,
            proves(r, merkle_proof_spec(old(self).store(), root_view(root), key@)),
    {
        let mut proof: crate::Proof = Vec::new();
        match root {
            None => Ok(None),
            Some(root) => {
                let found = self.gen_proof(root.as_slice(), Bits::new(key.as_slice()), &mut proof)?;
                if found {
                    proof {
                        let p = proof_spec(self.store(), root@, key_bits(key@))->Ok_0->0;
                        assert(Seq::<(bool, Seq<u8>)>::empty() + p =~= p);
                        assert(proof_view(Seq::<(bool, Vec<u8>)>::empty()) =~= Seq::<
                            (bool, Seq<u8>),
                        >::empty());
                    }
                    Ok(Some(proof))
                } else {
                    Ok(None)
                }
            },
        }
    }

    /// Walks down the subtree under `root` along `bits` and appends one
    /// entry to `proof` for each node on the way. Tells whether the walk
    /// ended on a leaf.
    #[verifier::rlimit(30)]
    fn gen_proof(&mut self, root: &[u8], bits: Bits, proof: &mut crate::Proof) -> (r: Result<bool>)
        requires
            bits@.tight(),
        ensures
            final(self).hash_fn() == old(self).hash_fn(),
            D::never_fails() && r is Err ==> r->Err_0.kind() != ErrorKind::Backend,
            final(self).store() == old(self).store(),
            match r {
                Ok(found) => match proof_spec(old(self).store(), root@, bits@) {
                    Ok(Some(p)) => found && proof_view(final(proof)@) == proof_view(old(proof)@)
                        + p,
                    Ok(None) => !found,
                    Err(_) => false,
                },
                Err(e) => e.kind() == ErrorKind::Backend || proof_spec(
                    old(self).store(),
                    root@,
                    bits@,
                ) == Err::<Option<ProofView>, ErrorKind>(e.kind()),
            },
        decreases bits@.len(),
    {
        let ghost before = self.store();
        let ghost start = proof_view(proof@);
        let bytes = match self.db.get(root)? {
            Some(bytes) => bytes,
            None => {
                return Err(
                    Errors::with_kind(ErrorKind::Invariant, "gen_proof(): node not in store"),
                );
            },
        };
        let right = bits.first();
        let (cell, _) = Node::cells_from_bytes(bytes.as_slice(), right)?;
        proof {
            lemma_node_parsed(bytes@);
        }
        let unit = cell.unwrap();
        if unit.bits.len() == 0 {
            return Err(
                Errors::with_kind(ErrorKind::Invariant, "gen_proof(): edge with an empty label"),
            );
        }
        proof {
            lemma_descend(before, root@, bits@);
        }
        let n = Bits::len_common_bits(&unit.bits, &bits);
        if n == bits.len() {
            let entry = self.encode_proof(bytes.as_slice(), right)?;
            proof.push(entry);
            assert(proof_view(proof@) =~= start + seq![proof_entry(bytes@, right)]);
            Ok(true)
        } else if n == unit.bits.len() {
            let entry = self.encode_proof(bytes.as_slice(), right)?;
            proof.push(entry);
            assert(proof_view(proof@) =~= start + seq![proof_entry(bytes@, right)]);
            proof {
                lemma_shift_tight(bits@, n as int, false);
            }
            let found = self.gen_proof(unit.hash, bits.shift(n, false), proof)?;
            proof {
                if found {
                    let p = proof_spec(before, unit@.hash, bits@.shift(n as int, false))->Ok_0->0;
                    assert((start + seq![proof_entry(bytes@, right)]) + p =~= start + (seq![
                        proof_entry(bytes@, right),
                    ] + p));
                }
            }
            Ok(found)
        } else {
            Ok(false)
        }
    }

    /// The proof entry for one node buffer; see `proof_entry`.
    #[verifier::rlimit(30)]
    fn encode_proof(&self, bytes: &[u8], right: bool) -> (r: Result<(bool, Vec<u8>)>)
        ensures
            match r {
                Ok(entry) => NodeView::from_bytes(bytes@) is Some && (entry.0, (entry.1)@)
                    == proof_entry(bytes@, right),
                Err(e) => e.kind() == ErrorKind::Decode && NodeView::from_bytes(bytes@) is None,
            },
    {
        let len = bytes.len();
        let node = Node::from_bytes(bytes)?;
        proof {
            lemma_node_layout(bytes@);
        }
        match node {
            Node::Soft(_) => Ok((false, slice_to_vec(slice_subrange(bytes, 32, len)))),
            Node::Hard(_, _) => {
                if right {
                    let mut cut = slice_to_vec(slice_subrange(bytes, 0, len - 33));
                    cut.push(0x01);
                    Ok((true, cut))
                } else {
                    Ok((false, slice_to_vec(slice_subrange(bytes, 32, len))))
                }
            },
        }
    }
}

/// Checks an inclusion proof: rebuilds each node on the path around the
/// running hash, from the leaf up, and compares what comes out with `root`.
/// A proof verifies only with the hasher that the tree was built with.
pub fn verify_proof<H: Hasher>(
    hasher: &H,
    root: Option<&crate::Hash>,
    leaf: &crate::Hash,
    proof: Option<&crate::Proof>,
) -> (ok: bool)
    ensures
        ok == verify_spec(
            *hasher,
            root_view(root),
            leaf@,
            given_proof_view(proof),
        ),
{
    if proof.is_none() {
        return false;
    }
    let entries = proof.unwrap();
    let ghost pv = proof_view(entries@);
    let mut hash: crate::Hash = *leaf;
    let mut i: usize = entries.len();
    assert(pv.take(i as int) =~= pv);
    while i > 0
        invariant
            i <= entries@.len(),
            pv == proof_view(entries@),
            given_proof_view(proof) == Some(pv),
            proof_root(*hasher, leaf@, pv) == proof_root(*hasher, hash@, pv.take(i as int)),
        decreases i,
    {
        let ghost head = pv.take(i as int);
        assert(head.drop_last() =~= pv.take(i - 1));
        assert(head.last() == pv[i - 1]);
        i -= 1;
        let right = entries[i].0;
        let cut = entries[i].1.as_slice();
        let mut buf: Vec<u8> = Vec::new();
        if right {
            let l = cut.len();
            if l == 0 {
                assert(rebuild(head.last(), hash@) is None);
                assert(proof_root(*hasher, hash@, head) is None);
                return false;
            }
            buf.extend_from_slice(slice_subrange(cut, 0, l - 1));
            buf.extend_from_slice(hash.as_slice());
            buf.push(cut[l - 1]);
        } else {
            buf.extend_from_slice(hash.as_slice());
            buf.extend_from_slice(cut);
        }
        assert(Some(buf@) =~= rebuild(pv[i as int], hash@));
        hash = hasher.digest(buf.as_slice());
    }
    match root {
        Some(root) => bytes_eq(root.as_slice(), hash.as_slice()),
        None => false,
    }
}

} // verus!
