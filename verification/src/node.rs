//! Tree nodes and their serialized form.
//!
//! A soft node holds one child edge, a hard node two. On the wire:
//!
//! ```text
//! soft: hash | start | end | path bytes | 0x00
//! hard: hash_l | start_l | end_l | path_l | start_r | end_r | path_r | hash_r | 0x01
//! ```
//!
//! `start` and `end` are big-endian 16-bit integers. In a hard node the child
//! whose path begins with bit 0 comes first.
use vstd::prelude::*;
use vstd::slice::slice_subrange;
use crate::bits::{Bits, BitsView};
use crate::errors::{ErrorKind, Errors};
use crate::utils::{be16, be16_bytes, bytes_to_int, nbytes_across, lemma_be16_roundtrip};
use crate::Result;
use crate::BitsLen;

verus! {

/// One child edge: the bits that label it and the hash it leads to. On a
/// terminal edge the hash is the leaf itself.
#[derive(Debug, Clone, PartialEq)]
pub struct Unit<'a> {
    pub hash: &'a [u8],
    pub bits: Bits<'a>,
}

/// A child slot of a node: empty, or one edge.
pub type Cell<'a> = Option<Unit<'a>>;

/// A node with one child (`Soft`) or two (`Hard`).
#[derive(Debug, Clone)]
pub enum Node<'a> {
    Soft(Cell<'a>),
    Hard(Cell<'a>, Cell<'a>),
}

/// What a `Unit` holds.
pub struct UnitView {
    pub hash: Seq<u8>,
    pub bits: BitsView,
}

/// What a node with all its cells filled holds.
pub enum NodeView {
    Soft(UnitView),
    Hard(UnitView, UnitView),
}

impl UnitView {
    /// The hash has the fixed width and the label is packed into its
    /// buffer. The label may be empty.
    pub open spec fn valid(self) -> bool {
        self.hash.len() == 32 && self.bits.packed()
    }

    /// The byte that holds the first bit of the label is there to be read.
    pub open spec fn readable(self) -> bool {
        self.bits.start / 8 < self.bits.path.len()
    }

    /// Serialized length of the edge without its hash.
    pub open spec fn span(self) -> int {
        4 + (self.bits.end + 7) / 8
    }
}

impl NodeView {
    /// Every edge is valid, and the two edges of a hard node have a first
    /// bit to read and begin with different bits.
    pub open spec fn valid(self) -> bool {
        match self {
            NodeView::Soft(u) => u.valid(),
            NodeView::Hard(l, r) => l.valid() && r.valid() && l.readable() && r.readable()
                && l.bits.first() != r.bits.first(),
        }
    }

    /// The node with the children of a hard node put in serialized order:
    /// the edge that begins with bit 1 last.
    pub open spec fn ordered(self) -> NodeView {
        match self {
            NodeView::Soft(u) => self,
            NodeView::Hard(l, r) => if r.bits.first() {
                self
            } else {
                NodeView::Hard(r, l)
            },
        }
    }

    /// The serialized form.
    #[verifier::opaque]
    pub open spec fn to_bytes(self) -> Seq<u8> {
        match self.ordered() {
            NodeView::Soft(u) => u.hash + u.bits.to_bytes() + seq![0x00u8],
            NodeView::Hard(l, r) => l.hash + l.bits.to_bytes() + r.bits.to_bytes() + r.hash
                + seq![0x01u8],
        }
    }

    /// The node that `bytes` deserializes to, if they are a well-formed node.
    #[verifier::opaque]
    pub open spec fn from_bytes(bytes: Seq<u8>) -> Option<NodeView> {
        let len = bytes.len() as int;
        if len == 0 {
            None
        } else if bytes[len - 1] == 0x00u8 {
            match parse_unit(bytes.subrange(0, len - 1), false) {
                Some((u, size)) => if size == len - 1 {
                    Some(NodeView::Soft(u))
                } else {
                    None
                },
                None => None,
            }
        } else if bytes[len - 1] == 0x01u8 {
            match parse_unit(bytes, false) {
                Some((l, size)) => if size > len - 1 {
                    None
                } else {
                    match parse_unit(bytes.subrange(size, len - 1), true) {
                        Some((r, used)) => if used + 32 == len - 1 - size && l.readable()
                            && r.readable() && !l.bits.first() && r.bits.first() {
                            Some(NodeView::Hard(l, r))
                        } else {
                            None
                        },
                        None => None,
                    }
                },
                None => None,
            }
        } else {
            None
        }
    }

    /// The child on the side that `right` selects, and its sibling. A soft
    /// node has only the one child, whatever `right` is.
    pub open spec fn cells(self, right: bool) -> (UnitView, Option<UnitView>) {
        match self {
            NodeView::Soft(u) => (u, None),
            NodeView::Hard(l, r) => if right {
                (r, Some(l))
            } else {
                (l, Some(r))
            },
        }
    }

    /// The node made of the two given cells, of which one at least is filled.
    pub open spec fn of_cells(lc: Option<UnitView>, rc: Option<UnitView>) -> NodeView {
        match (lc, rc) {
            (Some(l), Some(r)) => NodeView::Hard(l, r),
            (Some(l), None) => NodeView::Soft(l),
            (None, Some(r)) => NodeView::Soft(r),
            (None, None) => arbitrary(),
        }
    }
}

/// The edge at the head of `bytes` (`right == false`: hash first) or the one
/// that fills `bytes` up to its end (`right == true`: hash last), with the
/// number of bytes from the start of `bytes` to the end of the edge's path.
pub open spec fn parse_unit(bytes: Seq<u8>, right: bool) -> Option<(UnitView, int)> {
    let len = bytes.len() as int;
    let i: int = if right {
        0
    } else {
        32
    };
    if len < 36 {
        None
    } else {
        let start = be16(bytes.subrange(i, i + 2));
        let end = be16(bytes.subrange(i + 2, i + 4));
        let n = (end + 7) / 8;
        if !(start < 8 && start <= end) || len < 36 + n {
            None
        } else {
            Some(
                (
                    UnitView {
                        hash: if right {
                            bytes.subrange(len - 32, len)
                        } else {
                            bytes.subrange(0, 32)
                        },
                        bits: BitsView { path: bytes.subrange(i + 4, i + 4 + n), start, end },
                    },
                    i + 4 + n,
                ),
            )
        }
    }
}

impl<'a> View for Unit<'a> {
    type V = UnitView;

    open spec fn view(&self) -> UnitView {
        UnitView { hash: self.hash@, bits: self.bits@ }
    }
}

/// What a cell holds.
pub open spec fn cell_view(c: Cell) -> Option<UnitView> {
    match c {
        Some(u) => Some(u@),
        None => None,
    }
}

impl<'a> View for Node<'a> {
    type V = NodeView;

    open spec fn view(&self) -> NodeView {
        match self {
            Node::Soft(c) => NodeView::Soft(c->0@),
            Node::Hard(l, r) => NodeView::Hard(l->0@, r->0@),
        }
    }
}

impl<'a> Node<'a> {
    /// Every cell of the node is filled.
    pub open spec fn wf(&self) -> bool {
        match self {
            Node::Soft(c) => c is Some,
            Node::Hard(l, r) => l is Some && r is Some,
        }
    }

    /// The node can be serialized: its cells are filled and, in a hard node,
    /// the first bit of the second child can be read.
    pub open spec fn encodable(&self) -> bool {
        match self {
            Node::Soft(c) => c is Some,
            Node::Hard(l, r) => l is Some && r is Some && r->0@.bits.start / 8
                < r->0@.bits.path.len(),
        }
    }

    /// A node of the given cells: soft if one is empty, hard if both are
    /// filled.
    pub fn new(lc: Cell<'a>, rc: Cell<'a>) -> (node: Self)
        requires
            lc is Some || rc is Some,
        ensures
            node.wf(),
            node@ == NodeView::of_cells(cell_view(lc), cell_view(rc)),
    {
        match (lc, rc) {
            (Some(l), None) => Node::Soft(Some(l)),
            (None, Some(r)) => Node::Soft(Some(r)),
            (l, r) => Node::Hard(l, r),
        }
    }

    /// Decodes a node and hands out its cells: first the child on the side
    /// that `right` selects, then its sibling.
    #[verifier::rlimit(30)]
    pub fn cells_from_bytes(bytes: &'a [u8], right: bool) -> (r: Result<(Cell<'a>, Cell<'a>)>)
        ensures
            match r {
                Ok((c, o)) => {
                    &&& NodeView::from_bytes(bytes@) is Some
                    &&& c is Some
                    &&& c->0@ == NodeView::from_bytes(bytes@)->0.cells(right).0
                    &&& cell_view(o) == NodeView::from_bytes(bytes@)->0.cells(right).1
                },
                Err(e) => e.kind() == ErrorKind::Decode && NodeView::from_bytes(bytes@) is None,
            },
    {
        match Node::from_bytes(bytes)? {
            Node::Soft(cell) => Ok((cell, None)),
            Node::Hard(lc, rc) => {
                if right {
                    Ok((rc, lc))
                } else {
                    Ok((lc, rc))
                }
            },
        }
    }

    /// Decodes one edge of a node buffer; see `parse_unit`.
    #[verifier::rlimit(30)]
    pub fn parse_bytes(bytes: &'a [u8], right: bool) -> (r: Result<(Cell<'a>, usize)>)
        ensures
            match r {
                Ok((c, size)) => c is Some && parse_unit(bytes@, right) == Some(
                    (c->0@, size as int),
                ),
                Err(e) => e.kind() == ErrorKind::Decode && parse_unit(bytes@, right) is None,
            },
    {
        let l = bytes.len();
        if l < 36 {
            return Err(Errors::with_kind(ErrorKind::Decode, "node buffer too short"));
        }
        let i: usize = if right {
            0
        } else {
            32
        };
        let start: BitsLen = bytes_to_int(slice_subrange(bytes, i, i + 2));
        let end: BitsLen = bytes_to_int(slice_subrange(bytes, i + 2, i + 4));
        if !(start < 8 && start <= end) {
            return Err(Errors::with_kind(ErrorKind::Decode, "edge with a bad bit range"));
        }
        let n: usize = nbytes_across(start, end) as usize;
        if l < 36 + n {
            return Err(Errors::with_kind(ErrorKind::Decode, "node buffer too short"));
        }
        let hash = if right {
            slice_subrange(bytes, l - 32, l)
        } else {
            slice_subrange(bytes, 0, 32)
        };
        Ok(
            (
                Some(
                    Unit {
                        hash,
                        bits: Bits { path: slice_subrange(bytes, i + 4, i + 4 + n), range: start..end },
                    },
                ),
                i + 4 + n,
            ),
        )
    }

    /// Decodes a node. The last byte tells a soft node from a hard one.
    #[verifier::rlimit(30)]
    pub fn from_bytes(bytes: &'a [u8]) -> (r: Result<Self>)
        ensures
            match r {
                Ok(node) => node.wf() && NodeView::from_bytes(bytes@) == Some(node@),
                Err(e) => e.kind() == ErrorKind::Decode && NodeView::from_bytes(bytes@) is None,
            },
    {
        proof {
            reveal(NodeView::from_bytes);
        }
        let len = bytes.len();
        if len == 0 {
            return Err(Errors::with_kind(ErrorKind::Decode, "empty node buffer"));
        }
        let tag = bytes[len - 1];
        if tag == 0x00 {
            let (cell, size) = Node::parse_bytes(slice_subrange(bytes, 0, len - 1), false)?;
            if size != len - 1 {
                return Err(Errors::with_kind(ErrorKind::Decode, "soft node of a wrong length"));
            }
            Ok(Node::Soft(cell))
        } else if tag == 0x01 {
            let (lc, size) = Node::parse_bytes(bytes, false)?;
            if size > len - 1 {
                return Err(Errors::with_kind(ErrorKind::Decode, "hard node too short"));
            }
            let (rc, used) = Node::parse_bytes(slice_subrange(bytes, size, len - 1), true)?;
            if used + 32 != len - 1 - size {
                return Err(Errors::with_kind(ErrorKind::Decode, "hard node of a wrong length"));
            }
            let ordered = match (&lc, &rc) {
                (Some(l), Some(r)) => l.bits.path.len() > 0 && r.bits.path.len() > 0
                    && !l.bits.first() && r.bits.first(),
                _ => false,
            };
            if !ordered {
                return Err(Errors::with_kind(ErrorKind::Decode, "hard node with misplaced children"));
            }
            Ok(Node::Hard(lc, rc))
        } else {
            Err(Errors::with_kind(ErrorKind::Decode, "unknown node tag"))
        }
    }

    /// Serializes the node. The children of a hard node are written with the
    /// one whose path begins with bit 1 last, whatever their order here.
    #[verifier::rlimit(30)]
    pub fn to_bytes(&self) -> (r: Result<Vec<u8>>)
        ensures
            r is Ok <==> self.encodable(),
            r is Ok ==> r->Ok_0@ == self@.to_bytes(),
            r is Err ==> r->Err_0.kind() == ErrorKind::Invariant,
    {
        proof {
            reveal(NodeView::to_bytes);
        }
        match self {
            Node::Soft(Some(unit)) => {
                let mut out: Vec<u8> = Vec::new();
                out.extend_from_slice(unit.hash);
                let bits = unit.bits.to_bytes()?;
                out.extend_from_slice(bits.as_slice());
                out.push(0x00);
                assert(out@ =~= self@.to_bytes());
                Ok(out)
            },
            Node::Hard(Some(lu), Some(ru)) => {
                if (ru.bits.range.start / 8) as usize >= ru.bits.path.len() {
                    return Err(Errors::with_kind(ErrorKind::Invariant, "node with an empty path"));
                }
                let (lu, ru) = if ru.bits.first() {
                    (lu, ru)
                } else {
                    (ru, lu)
                };
                let mut out: Vec<u8> = Vec::new();
                out.extend_from_slice(lu.hash);
                let lbits = lu.bits.to_bytes()?;
                out.extend_from_slice(lbits.as_slice());
                let rbits = ru.bits.to_bytes()?;
                out.extend_from_slice(rbits.as_slice());
                out.extend_from_slice(ru.hash);
                out.push(0x01);
                assert(out@ =~= self@.to_bytes());
                Ok(out)
            },
            _ => Err(Errors::with_kind(ErrorKind::Invariant, "node with an empty cell")),
        }
    }
}

/// An edge written hash first is read back from the head of any buffer that
/// begins with it.
#[verifier::rlimit(30)]
pub proof fn lemma_parse_head(u: UnitView, rest: Seq<u8>)
    requires
        u.valid(),
    ensures
        parse_unit(u.hash + u.bits.to_bytes() + rest, false) == Some((u, 32 + u.span())),
{
    let bytes = u.hash + u.bits.to_bytes() + rest;
    let n = (u.bits.end + 7) / 8;
    lemma_be16_roundtrip(u.bits.start);
    lemma_be16_roundtrip(u.bits.end);
    assert(bytes.subrange(32, 34) =~= be16_bytes(u.bits.start));
    assert(bytes.subrange(34, 36) =~= be16_bytes(u.bits.end));
    assert(bytes.subrange(0, 32) =~= u.hash);
    assert(bytes.subrange(36, 36 + n) =~= u.bits.path);
}

/// An edge written hash last is read back from the buffer that it fills.
#[verifier::rlimit(30)]
pub proof fn lemma_parse_tail(u: UnitView)
    requires
        u.valid(),
    ensures
        parse_unit(u.bits.to_bytes() + u.hash, true) == Some((u, u.span())),
{
    let bytes = u.bits.to_bytes() + u.hash;
    let n = (u.bits.end + 7) / 8;
    let len = bytes.len() as int;
    lemma_be16_roundtrip(u.bits.start);
    lemma_be16_roundtrip(u.bits.end);
    assert(bytes.subrange(0, 2) =~= be16_bytes(u.bits.start));
    assert(bytes.subrange(2, 4) =~= be16_bytes(u.bits.end));
    assert(bytes.subrange(len - 32, len) =~= u.hash);
    assert(bytes.subrange(4, 4 + n) =~= u.bits.path);
}

/// The big-endian form of a decoded integer is the two bytes it was read from.
proof fn lemma_be16_bytes_of(b: Seq<u8>)
    requires
        b.len() == 2,
    ensures
        be16_bytes(be16(b)) == b,
        0 <= be16(b) <= BitsLen::MAX,
{
    assert(be16_bytes(be16(b)) =~= b);
}

/// What was read from the head of a buffer is valid and serializes to the
/// bytes it was read from.
#[verifier::rlimit(30)]
pub proof fn lemma_parsed_head(bytes: Seq<u8>)
    requires
        parse_unit(bytes, false) is Some,
    ensures
        ({
            let (u, size) = parse_unit(bytes, false)->0;
            &&& u.valid()
            &&& size == 32 + u.span()
            &&& size <= bytes.len()
            &&& bytes.subrange(0, size) == u.hash + u.bits.to_bytes()
        }),
{
    let (u, size) = parse_unit(bytes, false)->0;
    lemma_be16_bytes_of(bytes.subrange(32, 34));
    lemma_be16_bytes_of(bytes.subrange(34, 36));
    assert(bytes.subrange(0, size) =~= u.hash + u.bits.to_bytes());
}

/// What was read from a buffer that it fills is valid and serializes to that
/// buffer.
#[verifier::rlimit(30)]
pub proof fn lemma_parsed_tail(bytes: Seq<u8>)
    requires
        parse_unit(bytes, true) is Some,
        ({
            let (u, used) = parse_unit(bytes, true)->0;
            used + 32 == bytes.len()
        }),
    ensures
        ({
            let (u, used) = parse_unit(bytes, true)->0;
            &&& u.valid()
            &&& used == u.span()
            &&& bytes == u.bits.to_bytes() + u.hash
        }),
{
    let (u, used) = parse_unit(bytes, true)->0;
    lemma_be16_bytes_of(bytes.subrange(0, 2));
    lemma_be16_bytes_of(bytes.subrange(2, 4));
    assert(bytes =~= u.bits.to_bytes() + u.hash);
}

#[verifier::rlimit(30)]
proof fn lemma_soft_roundtrip(u: UnitView)
    requires
        u.valid(),
    ensures
        NodeView::from_bytes(NodeView::Soft(u).to_bytes()) == Some(NodeView::Soft(u)),
{
    reveal(NodeView::to_bytes);
    reveal(NodeView::from_bytes);
    let body = u.hash + u.bits.to_bytes();
    let bytes = body + seq![0x00u8];
    assert(NodeView::Soft(u).to_bytes() == bytes);
    let len = bytes.len() as int;
    assert(len == 32 + u.span() + 1);
    assert(bytes[len - 1] == 0x00u8);
    assert(bytes.subrange(0, len - 1) =~= body);
    lemma_parse_head(u, Seq::empty());
    assert(body + Seq::<u8>::empty() =~= body);
}

#[verifier::rlimit(30)]
proof fn lemma_hard_roundtrip(l: UnitView, r: UnitView)
    requires
        l.valid(),
        r.valid(),
        l.readable(),
        r.readable(),
        !l.bits.first(),
        r.bits.first(),
    ensures
        NodeView::from_bytes(NodeView::Hard(l, r).to_bytes()) == Some(NodeView::Hard(l, r)),
{
    reveal(NodeView::to_bytes);
    reveal(NodeView::from_bytes);
    let head = l.hash + l.bits.to_bytes();
    let tail = r.bits.to_bytes() + r.hash;
    let bytes = head + tail + seq![0x01u8];
    assert(NodeView::Hard(l, r).ordered() == NodeView::Hard(l, r));
    assert(NodeView::Hard(l, r).to_bytes() =~= bytes);
    let len = bytes.len() as int;
    let size = 32 + l.span();
    assert(head.len() == size);
    assert(tail.len() == r.span() + 32);
    assert(len == size + r.span() + 32 + 1);
    assert(bytes[len - 1] == 0x01u8);
    lemma_parse_head(l, tail + seq![0x01u8]);
    assert(head + (tail + seq![0x01u8]) =~= bytes);
    assert(parse_unit(bytes, false) == Some((l, size)));
    assert(bytes.subrange(size, len - 1) =~= tail);
    lemma_parse_tail(r);
}

/// Serializing a valid node and reading it back gives the node, with the
/// children of a hard node in serialized order.
pub proof fn lemma_node_roundtrip(node: NodeView)
    requires
        node.valid(),
    ensures
        NodeView::from_bytes(node.to_bytes()) == Some(node.ordered()),
        node.ordered().valid(),
        node.ordered().ordered() == node.ordered(),
        node.ordered().to_bytes() == node.to_bytes(),
{
    reveal(NodeView::to_bytes);
    match node.ordered() {
        NodeView::Soft(u) => {
            lemma_soft_roundtrip(u);
        },
        NodeView::Hard(l, r) => {
            lemma_hard_roundtrip(l, r);
        },
    }
}

/// A buffer that reads as a node holds a valid node in serialized order,
/// and that node serializes to the same buffer.
#[verifier::rlimit(30)]
pub proof fn lemma_node_parsed(bytes: Seq<u8>)
    requires
        NodeView::from_bytes(bytes) is Some,
    ensures
        NodeView::from_bytes(bytes)->0.valid(),
        NodeView::from_bytes(bytes)->0.ordered() == NodeView::from_bytes(bytes)->0,
        NodeView::from_bytes(bytes)->0.to_bytes() == bytes,
{
    reveal(NodeView::to_bytes);
    reveal(NodeView::from_bytes);
    let node = NodeView::from_bytes(bytes)->0;
    let len = bytes.len() as int;
    match node {
        NodeView::Soft(u) => {
            let body = bytes.subrange(0, len - 1);
            lemma_parsed_head(body);
            assert(body.subrange(0, len - 1) =~= body);
            assert(bytes =~= body + seq![0x00u8]);
        },
        NodeView::Hard(l, r) => {
            lemma_parsed_head(bytes);
            let (_, size) = parse_unit(bytes, false)->0;
            let rest = bytes.subrange(size, len - 1);
            lemma_parsed_tail(rest);
            assert(bytes =~= bytes.subrange(0, size) + rest + seq![0x01u8]);
            assert(node.to_bytes() =~= bytes);
        },
    }
}

/// Where the parts of a node lie in a buffer that reads as one.
#[verifier::rlimit(30)]
pub proof fn lemma_node_layout(bytes: Seq<u8>)
    requires
        NodeView::from_bytes(bytes) is Some,
    ensures
        ({
            let len = bytes.len() as int;
            match NodeView::from_bytes(bytes)->0 {
                NodeView::Soft(u) => {
                    &&& len == 32 + u.span() + 1
                    &&& bytes[len - 1] == 0x00u8
                    &&& bytes.subrange(0, 32) == u.hash
                },
                NodeView::Hard(l, r) => {
                    &&& len == 32 + l.span() + r.span() + 32 + 1
                    &&& bytes[len - 1] == 0x01u8
                    &&& bytes.subrange(0, 32) == l.hash
                    &&& bytes.subrange(len - 33, len - 1) == r.hash
                },
            }
        }),
{
    reveal(NodeView::from_bytes);
    let len = bytes.len() as int;
    match NodeView::from_bytes(bytes)->0 {
        NodeView::Soft(u) => {
            let body = bytes.subrange(0, len - 1);
            lemma_parsed_head(body);
            assert(body.subrange(0, 32) =~= bytes.subrange(0, 32));
        },
        NodeView::Hard(l, r) => {
            lemma_parsed_head(bytes);
            let (_, size) = parse_unit(bytes, false)->0;
            let rest = bytes.subrange(size, len - 1);
            lemma_parsed_tail(rest);
            assert(rest.subrange(rest.len() - 32, rest.len() as int) =~= bytes.subrange(
                len - 33,
                len - 1,
            ));
        },
    }
}

} // verus!
