use monotree::database::MemoryDB;
use monotree::hasher::Blake3;
use monotree::{Bits, Database, ErrorKind, Errors, Hasher, Monotree, Node, Unit};

/// A backend that fails every call.
struct Broken;

impl Database for Broken {
    fn new(_dbpath: &str) -> Self {
        Broken
    }

    fn get(&mut self, _key: &[u8]) -> monotree::Result<Option<Vec<u8>>> {
        Err(Errors::new("get failed"))
    }

    fn put(&mut self, _key: &[u8], _value: Vec<u8>) -> monotree::Result<()> {
        Err(Errors::new("put failed"))
    }

    fn delete(&mut self, _key: &[u8]) -> monotree::Result<()> {
        Err(Errors::new("delete failed"))
    }

    fn init_batch(&mut self) -> monotree::Result<()> {
        Err(Errors::new("init_batch failed"))
    }

    fn finish_batch(&mut self) -> monotree::Result<()> {
        Err(Errors::new("finish_batch failed"))
    }
}

/// A backend in memory that holds a buffer that is no node under the key of
/// 32 zero bytes.
struct Spoiled(MemoryDB);

impl Database for Spoiled {
    fn new(dbpath: &str) -> Self {
        let mut db = MemoryDB::new(dbpath);
        db.put(&[0u8; 32], vec![1, 2, 3]).unwrap();
        Spoiled(db)
    }

    fn get(&mut self, key: &[u8]) -> monotree::Result<Option<Vec<u8>>> {
        self.0.get(key)
    }

    fn put(&mut self, key: &[u8], value: Vec<u8>) -> monotree::Result<()> {
        self.0.put(key, value)
    }

    fn delete(&mut self, key: &[u8]) -> monotree::Result<()> {
        self.0.delete(key)
    }

    fn init_batch(&mut self) -> monotree::Result<()> {
        self.0.init_batch()
    }

    fn finish_batch(&mut self) -> monotree::Result<()> {
        self.0.finish_batch()
    }
}

fn kind<T>(r: monotree::Result<T>) -> ErrorKind {
    match r {
        Ok(_) => panic!("an error was expected"),
        Err(e) => e.get_kind(),
    }
}

#[test]
fn a_failing_backend_fails_every_operation() {
    let mut tree: Monotree<Broken, Blake3> = Monotree::new("nowhere");
    let (key, leaf, root) = ([1u8; 32], [2u8; 32], [3u8; 32]);
    assert_eq!(kind(tree.insert(None, &key, &leaf)), ErrorKind::Backend);
    assert_eq!(kind(tree.insert(Some(&root), &key, &leaf)), ErrorKind::Backend);
    assert_eq!(kind(tree.get(Some(&root), &key)), ErrorKind::Backend);
    assert_eq!(kind(tree.remove(Some(&root), &key)), ErrorKind::Backend);
    assert_eq!(kind(tree.get_merkle_proof(Some(&root), &key)), ErrorKind::Backend);
    assert_eq!(kind(tree.inserts(None, &[key], &[leaf])), ErrorKind::Backend);
    assert_eq!(kind(tree.removes(None, &[key])), ErrorKind::Backend);
    assert_eq!(kind(tree.gets(Some(&root), &[key])), ErrorKind::Backend);
    match tree.insert(None, &key, &leaf) {
        Ok(_) => panic!("an error was expected"),
        Err(e) => assert_eq!(e.to_string(), "put failed"),
    }
    // nothing is asked of the backend for the empty tree
    assert_eq!(tree.get(None, &key).unwrap(), None);
    assert_eq!(tree.remove(None, &key).unwrap(), None);
    assert_eq!(tree.get_merkle_proof(None, &key).unwrap(), None);
    assert_eq!(tree.gets(None, &[key, leaf]).unwrap(), vec![None, None]);
}

#[test]
fn a_root_that_is_not_in_the_store_is_an_invariant_error() {
    let mut tree: Monotree<MemoryDB, Blake3> = Monotree::new("memory");
    let (key, leaf, root) = ([1u8; 32], [2u8; 32], [3u8; 32]);
    assert_eq!(kind(tree.get(Some(&root), &key)), ErrorKind::Invariant);
    assert_eq!(kind(tree.insert(Some(&root), &key, &leaf)), ErrorKind::Invariant);
    assert_eq!(kind(tree.remove(Some(&root), &key)), ErrorKind::Invariant);
    assert_eq!(kind(tree.get_merkle_proof(Some(&root), &key)), ErrorKind::Invariant);
    assert_eq!(kind(tree.inserts(Some(&root), &[key], &[leaf])), ErrorKind::Invariant);
    assert_eq!(kind(tree.removes(Some(&root), &[key])), ErrorKind::Invariant);
    assert_eq!(kind(tree.gets(Some(&root), &[key])), ErrorKind::Invariant);
}

#[test]
fn a_buffer_that_is_no_node_is_a_decode_error() {
    let mut tree: Monotree<Spoiled, Blake3> = Monotree::new("memory");
    let (key, leaf, root) = ([1u8; 32], [2u8; 32], [0u8; 32]);
    assert_eq!(kind(tree.get(Some(&root), &key)), ErrorKind::Decode);
    assert_eq!(kind(tree.insert(Some(&root), &key, &leaf)), ErrorKind::Decode);
    assert_eq!(kind(tree.remove(Some(&root), &key)), ErrorKind::Decode);
    assert_eq!(kind(tree.get_merkle_proof(Some(&root), &key)), ErrorKind::Decode);
    // the rest of the store works
    let fresh = tree.insert(None, &key, &leaf).unwrap();
    assert_eq!(tree.get(fresh.as_ref(), &key).unwrap(), Some(leaf));
}

#[test]
fn the_default_tree_is_in_memory_and_hashed_with_blake3() {
    let mut tree = Monotree::default();
    let (key, leaf) = ([1u8; 32], [2u8; 32]);
    let root = tree.insert(None, &key, &leaf).unwrap();
    let mut buf = leaf.to_vec();
    buf.extend_from_slice(&[0x00, 0x00, 0x01, 0x00]);
    buf.extend_from_slice(&key);
    buf.push(0x00);
    assert_eq!(root, Some(*blake3::hash(&buf).as_bytes()));
    assert_eq!(tree.get(root.as_ref(), &key).unwrap(), Some(leaf));
    let root = tree.remove(root.as_ref(), &key).unwrap();
    assert_eq!(root, None);
}

#[test]
fn an_older_root_stays_readable() {
    let mut tree: Monotree<MemoryDB, Blake3> = Monotree::new("memory");
    let (ka, kb) = ([0x10u8; 32], [0x11u8; 32]);
    let (a, b, c) = ([1u8; 32], [2u8; 32], [3u8; 32]);
    let first = tree.insert(None, &ka, &a).unwrap();
    let second = tree.insert(first.as_ref(), &kb, &b).unwrap();
    let third = tree.insert(second.as_ref(), &ka, &c).unwrap();
    assert_eq!(tree.get(first.as_ref(), &ka).unwrap(), Some(a));
    assert_eq!(tree.get(first.as_ref(), &kb).unwrap(), None);
    assert_eq!(tree.get(second.as_ref(), &ka).unwrap(), Some(a));
    assert_eq!(tree.get(second.as_ref(), &kb).unwrap(), Some(b));
    assert_eq!(tree.get(third.as_ref(), &ka).unwrap(), Some(c));
    assert_eq!(tree.get(third.as_ref(), &kb).unwrap(), Some(b));
}

#[test]
fn a_tree_can_be_made_of_a_backend_and_a_hasher() {
    let mut db = MemoryDB::new("memory");
    db.put(b"other data", vec![7]).unwrap();
    let mut tree = Monotree::from_parts(db, monotree::hasher::Sha2);
    let (key, leaf) = ([4u8; 32], [5u8; 32]);
    let root = tree.insert(None, &key, &leaf).unwrap();
    assert_eq!(tree.get(root.as_ref(), &key).unwrap(), Some(leaf));
    let proof = tree.get_merkle_proof(root.as_ref(), &key).unwrap();
    assert!(monotree::tree::verify_proof(tree.get_hasher(), root.as_ref(), &leaf, proof.as_ref()));
    assert!(!monotree::tree::verify_proof(&Blake3, root.as_ref(), &leaf, proof.as_ref()));
}

#[test]
fn an_edge_with_an_empty_label_on_the_way_is_an_invariant_error() {
    let hasher = Blake3::new();
    let (key, leaf) = ([1u8; 32], [2u8; 32]);
    let none: [u8; 0] = [];
    let unit = Unit { hash: &leaf, bits: Bits { path: &none, range: 0..0 } };
    let bytes = Node::new(Some(unit), None).to_bytes().unwrap();
    let root = hasher.digest(&bytes);
    let mut db = MemoryDB::new("memory");
    db.put(&root, bytes).unwrap();
    let mut tree = Monotree::from_parts(db, hasher);
    assert_eq!(kind(tree.get(Some(&root), &key)), ErrorKind::Invariant);
    assert_eq!(kind(tree.insert(Some(&root), &key, &leaf)), ErrorKind::Invariant);
    assert_eq!(kind(tree.remove(Some(&root), &key)), ErrorKind::Invariant);
    assert_eq!(kind(tree.get_merkle_proof(Some(&root), &key)), ErrorKind::Invariant);
    match tree.get(Some(&root), &key) {
        Ok(_) => panic!("an error was expected"),
        Err(e) => assert_eq!(e.to_string(), "find_key(): edge with an empty label"),
    }
}
