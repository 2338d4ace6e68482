use monotree::database::MemoryDB;
use monotree::hasher::{Blake2b, Blake2s, Blake3, Sha2, Sha3};
use monotree::tree::verify_proof;
use monotree::{Bits, Database, Hasher, Monotree, Node, Unit};

fn filled(b: u8) -> [u8; 32] {
    [b; 32]
}

fn key_with_first_byte(b: u8) -> [u8; 32] {
    let mut k = [0u8; 32];
    k[0] = b;
    k
}

/// A small deterministic generator, so that the runs repeat.
struct Gen(u64);

impl Gen {
    fn next(&mut self) -> u64 {
        self.0 ^= self.0 << 13;
        self.0 ^= self.0 >> 7;
        self.0 ^= self.0 << 17;
        self.0
    }

    fn hash(&mut self) -> [u8; 32] {
        let mut out = [0u8; 32];
        for chunk in out.chunks_mut(8) {
            chunk.copy_from_slice(&self.next().to_be_bytes());
        }
        out
    }

    fn hashes(&mut self, n: usize) -> Vec<[u8; 32]> {
        let mut out: Vec<[u8; 32]> = Vec::new();
        while out.len() < n {
            let h = self.hash();
            if !out.contains(&h) {
                out.push(h);
            }
        }
        out
    }
}

fn new_tree() -> Monotree<MemoryDB, Blake3> {
    Monotree::new("memory")
}

#[test]
fn single_insert_has_the_documented_root() {
    let mut tree = new_tree();
    let key = filled(0x00);
    let leaf = filled(0x11);
    let root = tree.insert(None, &key, &leaf).unwrap();

    let mut buf: Vec<u8> = Vec::new();
    buf.extend_from_slice(&leaf);
    buf.extend_from_slice(&[0x00, 0x00, 0x01, 0x00]);
    buf.extend_from_slice(&[0u8; 32]);
    buf.push(0x00);
    assert_eq!(buf.len(), 69);
    let expected = *blake3::hash(&buf).as_bytes();
    assert_eq!(root, Some(expected));
    assert_eq!(tree.get(root.as_ref(), &key).unwrap(), Some(leaf));
}

#[test]
fn two_keys_differing_in_bit_zero_make_a_hard_root() {
    let mut tree = new_tree();
    let (ka, kb) = (key_with_first_byte(0x00), key_with_first_byte(0x80));
    let (a, b) = (filled(0xaa), filled(0xbb));
    let root = tree.insert(None, &ka, &a).unwrap();
    let root = tree.insert(root.as_ref(), &kb, &b).unwrap();

    let left = Unit { hash: &a, bits: Bits { path: &ka, range: 0..256 } };
    let right = Unit { hash: &b, bits: Bits { path: &kb, range: 0..256 } };
    let bytes = Node::new(Some(left), Some(right)).to_bytes().unwrap();
    assert_eq!(bytes.len(), 32 + 4 + 32 + 4 + 32 + 32 + 1);
    assert_eq!(bytes[bytes.len() - 1], 0x01);
    assert_eq!(root, Some(Blake3::new().digest(&bytes)));

    assert_eq!(tree.get(root.as_ref(), &ka).unwrap(), Some(a));
    assert_eq!(tree.get(root.as_ref(), &kb).unwrap(), Some(b));
}

#[test]
fn two_keys_differing_in_bit_one_split_the_edge() {
    let mut tree = new_tree();
    let (ka, kb) = (key_with_first_byte(0x00), key_with_first_byte(0x40));
    let (a, b) = (filled(0xaa), filled(0xbb));
    let root = tree.insert(None, &ka, &a).unwrap();
    let root = tree.insert(root.as_ref(), &kb, &b).unwrap();

    let hasher = Blake3::new();
    let low = Unit { hash: &a, bits: Bits { path: &ka, range: 1..256 } };
    let high = Unit { hash: &b, bits: Bits { path: &kb, range: 1..256 } };
    let inner = hasher.digest(&Node::new(Some(low), Some(high)).to_bytes().unwrap());
    let prefix = Unit { hash: &inner, bits: Bits { path: &ka[..1], range: 0..1 } };
    let top = Node::new(Some(prefix), None).to_bytes().unwrap();
    assert_eq!(top.len(), 32 + 4 + 1 + 1);
    assert_eq!(top[top.len() - 1], 0x00);
    assert_eq!(root, Some(hasher.digest(&top)));

    assert_eq!(tree.get(root.as_ref(), &ka).unwrap(), Some(a));
    assert_eq!(tree.get(root.as_ref(), &kb).unwrap(), Some(b));
}

#[test]
fn remove_after_split_leaves_the_other_key() {
    let mut tree = new_tree();
    let (ka, kb) = (key_with_first_byte(0x00), key_with_first_byte(0x40));
    let (a, b) = (filled(0xaa), filled(0xbb));
    let root = tree.insert(None, &ka, &a).unwrap();
    let root = tree.insert(root.as_ref(), &kb, &b).unwrap();
    let root = tree.remove(root.as_ref(), &kb).unwrap();

    // The edge above the split is kept: a soft node over a soft node.
    let hasher = Blake3::new();
    let low = Unit { hash: &a, bits: Bits { path: &ka, range: 1..256 } };
    let inner = hasher.digest(&Node::new(Some(low), None).to_bytes().unwrap());
    let prefix = Unit { hash: &inner, bits: Bits { path: &ka[..1], range: 0..1 } };
    let top = Node::new(Some(prefix), None).to_bytes().unwrap();
    assert_eq!(root, Some(hasher.digest(&top)));

    assert_eq!(tree.get(root.as_ref(), &ka).unwrap(), Some(a));
    assert_eq!(tree.get(root.as_ref(), &kb).unwrap(), None);
    let root = tree.remove(root.as_ref(), &ka).unwrap();
    assert_eq!(root, None);
}

#[test]
fn batch_equals_sequential_in_sorted_order() {
    let mut gen = Gen(0x9e3779b97f4a7c15);
    let keys = gen.hashes(500);
    let leaves = gen.hashes(500);

    let mut tree = new_tree();
    let batch = tree.inserts(None, &keys, &leaves).unwrap();

    let mut order: Vec<usize> = (0..keys.len()).collect();
    order.sort_by(|a, b| keys[*a].cmp(&keys[*b]));
    let mut other = new_tree();
    let mut root: Option<[u8; 32]> = None;
    for i in order {
        root = other.insert(root.as_ref(), &keys[i], &leaves[i]).unwrap();
    }
    assert!(batch.is_some());
    assert_eq!(batch, root);

    let found = tree.gets(batch.as_ref(), &keys).unwrap();
    assert_eq!(found.len(), 500);
    for i in 0..keys.len() {
        assert_eq!(found[i], Some(leaves[i]));
    }
}

#[test]
fn proofs_verify_for_every_key_and_fail_for_other_leaves() {
    let mut gen = Gen(0x2545f4914f6cdd1d);
    let keys = gen.hashes(500);
    let leaves = gen.hashes(500);
    let mut tree = new_tree();
    let root = tree.inserts(None, &keys, &leaves).unwrap();
    let hasher = Blake3::new();
    for i in 0..keys.len() {
        let proof = tree.get_merkle_proof(root.as_ref(), &keys[i]).unwrap();
        assert!(proof.is_some());
        assert!(verify_proof(&hasher, root.as_ref(), &leaves[i], proof.as_ref()));
        let other = gen.hash();
        assert!(!verify_proof(&hasher, root.as_ref(), &other, proof.as_ref()));
        let wrong_root = gen.hash();
        assert!(!verify_proof(&hasher, Some(&wrong_root), &leaves[i], proof.as_ref()));
    }
    assert!(!verify_proof(&hasher, root.as_ref(), &leaves[0], None));
    let proof = tree.get_merkle_proof(root.as_ref(), &keys[0]).unwrap();
    assert!(!verify_proof(&hasher, None, &leaves[0], proof.as_ref()));
}

#[test]
fn proofs_verify_with_every_hasher() {
    fn run<H: Hasher>(seed: u64) {
        let mut gen = Gen(seed);
        let keys = gen.hashes(40);
        let leaves = gen.hashes(40);
        let mut tree: Monotree<MemoryDB, H> = Monotree::new("memory");
        let root = tree.inserts(None, &keys, &leaves).unwrap();
        let hasher = H::new();
        for i in 0..keys.len() {
            assert_eq!(tree.get(root.as_ref(), &keys[i]).unwrap(), Some(leaves[i]));
            let proof = tree.get_merkle_proof(root.as_ref(), &keys[i]).unwrap();
            assert!(verify_proof(&hasher, root.as_ref(), &leaves[i], proof.as_ref()));
        }
    }
    run::<Blake2s>(1);
    run::<Blake2b>(2);
    run::<Blake3>(3);
    run::<Sha2>(4);
    run::<Sha3>(5);
}

#[test]
fn a_key_never_inserted_has_no_proof() {
    let mut gen = Gen(77);
    let keys = gen.hashes(100);
    let leaves = gen.hashes(100);
    let mut tree = new_tree();
    let root = tree.inserts(None, &keys[..99], &leaves[..99]).unwrap();
    assert_eq!(tree.get(root.as_ref(), &keys[99]).unwrap(), None);
    assert_eq!(tree.get_merkle_proof(root.as_ref(), &keys[99]).unwrap(), None);
    assert_eq!(tree.get_merkle_proof(None, &keys[0]).unwrap(), None);
    assert_eq!(tree.get(None, &keys[0]).unwrap(), None);
}

#[test]
fn insert_then_get_returns_the_latest_leaf() {
    let mut gen = Gen(5);
    let keys = gen.hashes(200);
    let leaves = gen.hashes(200);
    let newer = gen.hashes(200);
    let mut tree = new_tree();
    let mut root: Option<[u8; 32]> = None;
    for i in 0..keys.len() {
        root = tree.insert(root.as_ref(), &keys[i], &leaves[i]).unwrap();
        assert_eq!(tree.get(root.as_ref(), &keys[i]).unwrap(), Some(leaves[i]));
    }
    for i in 0..100 {
        root = tree.insert(root.as_ref(), &keys[i], &newer[i]).unwrap();
    }
    for i in 0..keys.len() {
        let want = if i < 100 { newer[i] } else { leaves[i] };
        assert_eq!(tree.get(root.as_ref(), &keys[i]).unwrap(), Some(want));
    }
}

#[test]
fn remove_unbinds_one_key_and_keeps_the_others() {
    let mut gen = Gen(6);
    let keys = gen.hashes(120);
    let leaves = gen.hashes(120);
    let mut tree = new_tree();
    let mut root = tree.inserts(None, &keys, &leaves).unwrap();
    for i in 0..60 {
        root = tree.remove(root.as_ref(), &keys[i]).unwrap();
        assert_eq!(tree.get(root.as_ref(), &keys[i]).unwrap(), None);
    }
    for i in 0..keys.len() {
        let want = if i < 60 { None } else { Some(leaves[i]) };
        assert_eq!(tree.get(root.as_ref(), &keys[i]).unwrap(), want);
    }
}

#[test]
fn removing_a_missing_key_keeps_the_root() {
    let mut gen = Gen(7);
    let keys = gen.hashes(50);
    let leaves = gen.hashes(50);
    let mut tree = new_tree();
    let root = tree.inserts(None, &keys[..49], &leaves[..49]).unwrap();
    let after = tree.remove(root.as_ref(), &keys[49]).unwrap();
    assert_eq!(after, root);
    for i in 0..49 {
        assert_eq!(tree.get(after.as_ref(), &keys[i]).unwrap(), Some(leaves[i]));
    }
    assert_eq!(tree.remove(None, &keys[0]).unwrap(), None);
}

#[test]
fn removing_every_key_empties_the_tree() {
    let mut gen = Gen(8);
    let keys = gen.hashes(150);
    let leaves = gen.hashes(150);
    let mut tree = new_tree();
    let root = tree.inserts(None, &keys, &leaves).unwrap();

    // one by one, in the order of insertion reversed
    let mut one = root;
    for i in (0..keys.len()).rev() {
        assert!(one.is_some());
        one = tree.remove(one.as_ref(), &keys[i]).unwrap();
    }
    assert_eq!(one, None);

    // in one batch
    assert_eq!(tree.removes(root.as_ref(), &keys).unwrap(), None);
}

#[test]
fn batch_root_does_not_depend_on_input_order() {
    let mut gen = Gen(9);
    let keys = gen.hashes(64);
    let leaves = gen.hashes(64);
    let mut tree = new_tree();
    let root = tree.inserts(None, &keys, &leaves).unwrap();

    let mut perm: Vec<usize> = (0..keys.len()).collect();
    for i in (1..perm.len()).rev() {
        let j = (gen.next() % (i as u64 + 1)) as usize;
        perm.swap(i, j);
    }
    let keys2: Vec<[u8; 32]> = perm.iter().map(|i| keys[*i]).collect();
    let leaves2: Vec<[u8; 32]> = perm.iter().map(|i| leaves[*i]).collect();
    let mut other = new_tree();
    assert_eq!(other.inserts(None, &keys2, &leaves2).unwrap(), root);
}

#[test]
fn memory_db_reads_the_latest_write() {
    let mut db = MemoryDB::new("memory");
    assert_eq!(db.get(b"k").unwrap(), None);
    db.put(b"k", vec![1, 2, 3]).unwrap();
    db.put(b"other", vec![9]).unwrap();
    assert_eq!(db.get(b"k").unwrap(), Some(vec![1, 2, 3]));
    db.put(b"k", vec![4]).unwrap();
    assert_eq!(db.get(b"k").unwrap(), Some(vec![4]));
    db.init_batch().unwrap();
    db.delete(b"k").unwrap();
    db.finish_batch().unwrap();
    assert_eq!(db.get(b"k").unwrap(), None);
    assert_eq!(db.get(b"other").unwrap(), Some(vec![9]));
}
