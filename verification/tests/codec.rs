use monotree::hasher::{Blake2b, Blake2s, Blake3, Sha2, Sha3};
use monotree::order::get_sorted_indices;
use monotree::tree::verify_proof;
use monotree::utils::{bit, bytes_eq, bytes_to_int, int_to_bytes, nbytes_across, offsets, slice_to_hash};
use monotree::{Bits, ErrorKind, Errors, Hasher, Node, Unit};

fn hex(s: &str) -> Vec<u8> {
    let digits: Vec<u8> = s.bytes().map(|c| (c as char).to_digit(16).unwrap() as u8).collect();
    digits.chunks(2).map(|p| p[0] * 16 + p[1]).collect()
}

#[test]
fn bits_are_numbered_from_the_most_significant() {
    let bytes = [0b1000_0001u8, 0b0100_0000];
    assert!(bit(&bytes, 0));
    assert!(!bit(&bytes, 1));
    assert!(bit(&bytes, 7));
    assert!(!bit(&bytes, 8));
    assert!(bit(&bytes, 9));
    assert!(!bit(&bytes, 15));
}

#[test]
fn byte_spans_and_offsets() {
    assert_eq!(nbytes_across(0, 0), 0);
    assert_eq!(nbytes_across(0, 1), 1);
    assert_eq!(nbytes_across(0, 8), 1);
    assert_eq!(nbytes_across(0, 9), 2);
    assert_eq!(nbytes_across(7, 256), 32);
    assert_eq!(nbytes_across(9, 17), 2);
    assert_eq!(offsets(&(0..256), 1, true), (1, 0..1));
    assert_eq!(offsets(&(0..256), 1, false), (0, 1..256));
    assert_eq!(offsets(&(0..256), 8, false), (1, 0..248));
    assert_eq!(offsets(&(3..40), 14, false), (2, 1..24));
    assert_eq!(offsets(&(3..40), 14, true), (3, 3..17));
}

#[test]
fn big_endian_integers() {
    assert_eq!(bytes_to_int(&[0x01, 0x00]), 256);
    assert_eq!(bytes_to_int(&[0xff, 0xff]), 65535);
    assert_eq!(int_to_bytes(256), [0x01, 0x00]);
    assert_eq!(int_to_bytes(0x1234), [0x12, 0x34]);
    assert_eq!(slice_to_hash(&[7u8; 32]), [7u8; 32]);
    assert!(bytes_eq(&[1, 2], &[1, 2]));
    assert!(!bytes_eq(&[1, 2], &[1, 3]));
    assert!(!bytes_eq(&[1, 2], &[1, 2, 3]));
}

#[test]
fn bits_new_len_first_is_empty() {
    let bytes = [0x80u8, 0x01];
    let bits = Bits::new(&bytes);
    assert_eq!(bits.range, 0..16);
    assert_eq!(bits.len(), 16);
    assert!(bits.first());
    assert!(!bits.is_empty());
    let empty = Bits { path: &bytes, range: 4..4 };
    assert!(empty.is_empty());
    assert_eq!(empty.len(), 0);
    let none: [u8; 0] = [];
    assert!(Bits::new(&none).is_empty());
}

#[test]
fn shift_drops_the_head_or_keeps_it() {
    let bytes = [0b1010_1100u8, 0b0101_0011, 0xff];
    let bits = Bits::new(&bytes);
    let tail = bits.shift(11, false);
    assert_eq!(tail.range, 3..16);
    assert_eq!(tail.path, &bytes[1..]);
    assert_eq!(tail.len(), 13);
    assert!(tail.first());
    let head = bits.shift(11, true);
    assert_eq!(head.range, 0..11);
    assert_eq!(head.path, &bytes[..2]);
    let again = tail.shift(6, false);
    assert_eq!(again.range, 1..8);
    assert_eq!(again.path, &bytes[2..]);
    let whole = bits.shift(0, false);
    assert_eq!(whole, bits);
}

#[test]
fn common_prefix_of_two_paths() {
    let a = [0b1010_1100u8, 0b0101_0011];
    let b = [0b1010_1100u8, 0b0111_0011];
    let (x, y) = (Bits::new(&a), Bits::new(&b));
    assert_eq!(Bits::len_common_bits(&x, &y), 10);
    assert_eq!(Bits::len_common_bits(&x, &x), 16);
    let short = x.shift(5, true);
    assert_eq!(Bits::len_common_bits(&short, &y), 5);
    assert_eq!(Bits::len_common_bits(&y, &short), 5);
    let c = [0b0010_1100u8];
    assert_eq!(Bits::len_common_bits(&x, &Bits::new(&c)), 0);
    // ranges that start at different offsets
    let d = [0b0101_0110u8, 0b0010_1001];
    let shifted = Bits { path: &d, range: 1..15 };
    assert_eq!(Bits::len_common_bits(&x, &shifted), 14);
}

#[test]
fn bits_serialization_round_trip() {
    let bytes = [0xde, 0xad, 0xbe, 0xef];
    let bits = Bits { path: &bytes, range: 3..29 };
    let wire = bits.to_bytes().unwrap();
    assert_eq!(wire, vec![0x00, 0x03, 0x00, 0x1d, 0xde, 0xad, 0xbe, 0xef]);
    assert_eq!(Bits::from_bytes(&wire), bits);
}

fn soft_bytes() -> Vec<u8> {
    let mut buf = vec![0x11u8; 32];
    buf.extend_from_slice(&[0x00, 0x02, 0x00, 0x0b, 0xa5, 0xc0, 0x00]);
    buf
}

#[test]
fn soft_node_round_trip() {
    let hash = [0x11u8; 32];
    let path = [0xa5u8, 0xc0];
    let unit = Unit { hash: &hash, bits: Bits { path: &path, range: 2..11 } };
    let node = Node::new(Some(unit.clone()), None);
    let wire = node.to_bytes().unwrap();
    assert_eq!(wire, soft_bytes());
    match Node::from_bytes(&wire).unwrap() {
        Node::Soft(Some(u)) => assert_eq!(u, unit),
        _ => panic!("a soft node was expected"),
    }
    let same = Node::new(None, Some(unit.clone())).to_bytes().unwrap();
    assert_eq!(same, wire);
    let (cell, other) = Node::cells_from_bytes(&wire, true).unwrap();
    assert_eq!(cell, Some(unit));
    assert_eq!(other, None);
}

#[test]
fn hard_node_is_written_in_canonical_order() {
    let (lh, rh) = ([0x22u8; 32], [0x33u8; 32]);
    let (lp, rp) = ([0b0001_0000u8], [0b0011_0000u8, 0x80]);
    let left = Unit { hash: &lh, bits: Bits { path: &lp, range: 2..6 } };
    let right = Unit { hash: &rh, bits: Bits { path: &rp, range: 2..9 } };
    let wire = Node::new(Some(left.clone()), Some(right.clone())).to_bytes().unwrap();
    let swapped = Node::new(Some(right.clone()), Some(left.clone())).to_bytes().unwrap();
    assert_eq!(wire, swapped);

    let mut want = vec![0x22u8; 32];
    want.extend_from_slice(&[0x00, 0x02, 0x00, 0x06, 0b0001_0000]);
    want.extend_from_slice(&[0x00, 0x02, 0x00, 0x09, 0b0011_0000, 0x80]);
    want.extend_from_slice(&[0x33u8; 32]);
    want.push(0x01);
    assert_eq!(wire, want);

    match Node::from_bytes(&wire).unwrap() {
        Node::Hard(Some(l), Some(r)) => {
            assert_eq!(l, left);
            assert_eq!(r, right);
        }
        _ => panic!("a hard node was expected"),
    }
    let (cell, other) = Node::cells_from_bytes(&wire, true).unwrap();
    assert_eq!(cell, Some(right.clone()));
    assert_eq!(other, Some(left.clone()));
    let (cell, other) = Node::cells_from_bytes(&wire, false).unwrap();
    assert_eq!(cell, Some(left));
    assert_eq!(other, Some(right));
}

fn decode_kind(bytes: &[u8]) -> ErrorKind {
    match Node::from_bytes(bytes) {
        Ok(_) => panic!("the buffer should not decode"),
        Err(e) => e.get_kind(),
    }
}

#[test]
fn malformed_buffers_are_decode_errors() {
    assert_eq!(decode_kind(&[]), ErrorKind::Decode);
    assert_eq!(decode_kind(&[0x00]), ErrorKind::Decode);
    let good = soft_bytes();
    // unknown tag
    let mut bad = good.clone();
    *bad.last_mut().unwrap() = 0x02;
    assert_eq!(decode_kind(&bad), ErrorKind::Decode);
    // truncated
    assert_eq!(decode_kind(&good[1..]), ErrorKind::Decode);
    // a byte too many
    let mut bad = good.clone();
    bad.insert(38, 0xff);
    assert_eq!(decode_kind(&bad), ErrorKind::Decode);
    // a range that ends before it starts
    let mut bad = good.clone();
    bad[35] = 0x01;
    assert_eq!(decode_kind(&bad), ErrorKind::Decode);
    // a range that needs fewer path bytes than the buffer holds
    let mut bad = good.clone();
    bad[35] = 0x02;
    assert_eq!(decode_kind(&bad), ErrorKind::Decode);
    // range that starts beyond the first byte
    let mut bad = good.clone();
    bad[33] = 0x08;
    assert_eq!(decode_kind(&bad), ErrorKind::Decode);
    // a soft buffer with the tag of a hard node
    let mut bad = good.clone();
    *bad.last_mut().unwrap() = 0x01;
    assert_eq!(decode_kind(&bad), ErrorKind::Decode);
    assert!(Node::cells_from_bytes(&bad, false).is_err());
}

#[test]
fn hard_node_with_children_on_the_same_side_is_refused() {
    let (lh, rh) = ([0x22u8; 32], [0x33u8; 32]);
    let (lp, rp) = ([0b0001_0000u8], [0b0001_0000u8]);
    let left = Unit { hash: &lh, bits: Bits { path: &lp, range: 2..6 } };
    let right = Unit { hash: &rh, bits: Bits { path: &rp, range: 2..6 } };
    let wire = Node::new(Some(left), Some(right)).to_bytes().unwrap();
    assert_eq!(decode_kind(&wire), ErrorKind::Decode);
}

#[test]
fn a_node_with_an_empty_cell_does_not_serialize() {
    let hash = [0x11u8; 32];
    let path = [0xa5u8];
    let unit = Unit { hash: &hash, bits: Bits { path: &path, range: 0..8 } };
    assert_eq!(Node::Soft(None).to_bytes().unwrap_err().get_kind(), ErrorKind::Invariant);
    assert_eq!(
        Node::Hard(Some(unit.clone()), None).to_bytes().unwrap_err().get_kind(),
        ErrorKind::Invariant
    );
    assert_eq!(Node::Hard(None, Some(unit)).to_bytes().unwrap_err().get_kind(), ErrorKind::Invariant);
}

#[test]
fn errors_carry_kind_and_message() {
    let e = Errors::new("disk on fire");
    assert_eq!(e.get_kind(), ErrorKind::Backend);
    assert_eq!(e.to_string(), "disk on fire");
    let e = Errors::with_kind(ErrorKind::Decode, "bad tag");
    assert_eq!(e.get_kind(), ErrorKind::Decode);
    assert_eq!(e.to_string(), "bad tag");
}

#[test]
fn hashers_agree_with_their_crates() {
    let msg = b"abc";
    assert_eq!(
        Sha2::new().digest(msg).to_vec(),
        hex("ba7816bf8f01cfea414140de5dae2223b00361a396177a9cb410ff61f20015ad")
    );
    assert_eq!(
        Sha3::new().digest(msg).to_vec(),
        hex("3a985da74fe225b2045c172d6bd390bd855f086e3e9d525b46bfe24511431532")
    );
    assert_eq!(
        Blake3::new().digest(msg).to_vec(),
        hex("6437b3ac38465133ffb63b75273a8db548c558465d79db03fd359c6cd5bd9d85")
    );
    assert_eq!(
        Blake2s::new().digest(msg).to_vec(),
        hex("508c5e8c327c14e2e1a72ba34eeb452f37458b209ed63a294d999b4c86675982")
    );
    assert_eq!(
        Blake2b::new().digest(msg).to_vec(),
        hex("bddd813c634239723171ef3fee98579b94964e3bb1cb3e427262c8c068d52319")
    );
    assert_eq!(Blake3::new().digest(msg), *blake3::hash(msg).as_bytes());
    assert_eq!(
        Blake2s::new().digest(msg).to_vec(),
        blake2_rfc::blake2s::blake2s(32, &[], msg).as_bytes().to_vec()
    );
    assert_eq!(
        Blake2b::new().digest(msg).to_vec(),
        blake2_rfc::blake2b::blake2b(32, &[], msg).as_bytes().to_vec()
    );
}

#[test]
fn sorted_indices_are_stable_and_ascending() {
    let mut keys = vec![[5u8; 32], [1u8; 32], [5u8; 32], [0u8; 32], [1u8; 32]];
    keys[2][31] = 4;
    assert_eq!(get_sorted_indices(&keys), vec![3, 1, 4, 2, 0]);
    let none: Vec<[u8; 32]> = Vec::new();
    assert_eq!(get_sorted_indices(&none), Vec::<usize>::new());
    // no two positions are the same, and every position is there
    let mut many: Vec<[u8; 32]> = Vec::new();
    for i in 0..200u32 {
        let mut k = [0u8; 32];
        k[0] = (i.wrapping_mul(37) % 7) as u8;
        k[31] = (i.wrapping_mul(101) % 5) as u8;
        many.push(k);
    }
    let order = get_sorted_indices(&many);
    assert_eq!(order.len(), 200);
    for w in order.windows(2) {
        let (a, b) = (w[0], w[1]);
        assert!(many[a] < many[b] || (many[a] == many[b] && a < b));
    }
}

#[test]
fn verify_proof_rebuilds_nodes_around_the_running_hash() {
    let hasher = Blake3::new();
    let leaf = [0x77u8; 32];
    // one soft node over the leaf
    let cut = vec![0x00, 0x00, 0x00, 0x08, 0xa5, 0x00];
    let mut buf = leaf.to_vec();
    buf.extend_from_slice(&cut);
    let root = hasher.digest(&buf);
    let proof = vec![(false, cut)];
    assert!(verify_proof(&hasher, Some(&root), &leaf, Some(&proof)));
    // the hash goes before the last byte of a right-hand entry
    let cut = vec![0xaa, 0xbb, 0x01];
    let mut buf = vec![0xaa, 0xbb];
    buf.extend_from_slice(&leaf);
    buf.push(0x01);
    let root = hasher.digest(&buf);
    let proof = vec![(true, cut)];
    assert!(verify_proof(&hasher, Some(&root), &leaf, Some(&proof)));
    // an empty proof leads from the leaf to itself
    let proof: Vec<(bool, Vec<u8>)> = Vec::new();
    assert!(verify_proof(&hasher, Some(&leaf), &leaf, Some(&proof)));
    assert!(!verify_proof(&hasher, Some(&root), &leaf, Some(&proof)));
    // a right-hand entry with nothing in it proves nothing
    let proof = vec![(true, Vec::new())];
    assert!(!verify_proof(&hasher, Some(&root), &leaf, Some(&proof)));
}

#[test]
fn a_soft_node_with_an_empty_edge_round_trips() {
    let hash = [0x44u8; 32];
    let none: [u8; 0] = [];
    let unit = Unit { hash: &hash, bits: Bits { path: &none, range: 0..0 } };
    let wire = Node::new(Some(unit.clone()), None).to_bytes().unwrap();
    assert_eq!(wire.len(), 37);
    let mut want = vec![0x44u8; 32];
    want.extend_from_slice(&[0x00, 0x00, 0x00, 0x00, 0x00]);
    assert_eq!(wire, want);
    match Node::from_bytes(&wire).unwrap() {
        Node::Soft(Some(u)) => assert_eq!(u, unit),
        _ => panic!("a soft node was expected"),
    }

    // an empty range that starts inside the first byte keeps that byte
    let path = [0xa5u8];
    let unit = Unit { hash: &hash, bits: Bits { path: &path, range: 5..5 } };
    let wire = Node::new(None, Some(unit.clone())).to_bytes().unwrap();
    assert_eq!(wire.len(), 38);
    match Node::from_bytes(&wire).unwrap() {
        Node::Soft(Some(u)) => assert_eq!(u, unit),
        _ => panic!("a soft node was expected"),
    }
    let (cell, other) = Node::cells_from_bytes(&wire, false).unwrap();
    assert_eq!(cell, Some(unit));
    assert_eq!(other, None);
}

#[test]
fn a_hard_node_with_an_empty_edge_round_trips_if_its_first_bits_can_be_read() {
    let (lh, rh) = ([0x22u8; 32], [0x33u8; 32]);
    let (lp, rp) = ([0b0000_0000u8], [0b0010_0000u8]);
    let left = Unit { hash: &lh, bits: Bits { path: &lp, range: 2..2 } };
    let right = Unit { hash: &rh, bits: Bits { path: &rp, range: 2..7 } };
    let wire = Node::new(Some(right.clone()), Some(left.clone())).to_bytes().unwrap();
    match Node::from_bytes(&wire).unwrap() {
        Node::Hard(Some(l), Some(r)) => {
            assert_eq!(l, left);
            assert_eq!(r, right);
        }
        _ => panic!("a hard node was expected"),
    }
    // with no byte to read the first bit from, the order cannot be told
    let none: [u8; 0] = [];
    let blind = Unit { hash: &lh, bits: Bits { path: &none, range: 0..0 } };
    let wire = Node::new(Some(blind), Some(right)).to_bytes().unwrap();
    assert_eq!(decode_kind(&wire), ErrorKind::Decode);
}
