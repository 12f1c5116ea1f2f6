//! Encoding of the custom binary save format.
//!
//! ```text
//! def NODE_TYPE_NODE     = 0:u8
//! def NODE_TYPE_LIST     = 1:u8
//! def NODE_TYPE_MAP      = 2:u8
//! def NODE_TYPE_RAW      = 3:u8
//! def NODE_TYPE_STRING   = 4:u8
//! def NODE_TYPE_BOOL     = 5:u8
//! def NODE_TYPE_UNSIGNED = 6:u8
//! def NODE_TYPE_SIGNED   = 7:u8
//! def NODE_TYPE_F32      = 8:u8
//! def NODE_TYPE_F64      = 9:u8
//!
//! def string       = length:unsignedVarInt ~ data:{u8{length}}
//! def byteSequence = length:unsignedVarInt ~ data:{u8{length}}
//!
//! def LIST_TYPE_VERBATIM = 0:u8
//! def LIST_TYPE_RLE      = 1:u8
//!
//! def listNode =
//!     / LIST_TYPE_VERBATIM ~ length:unsignedVarInt ~ NODE_TYPE ~ node{length}
//!     / LIST_TYPE_RLE      ~ NODE_TYPE ~ { !0:u8 ~ runLength:unsignedVarInt ~ node }* ~ 0:u8
//!
//! def mapNode = { !0:u8 ~ key:string ~ NODE_TYPE ~ value:node }* ~ 0:u8
//! ```
//!
//! Unsigned variable-length integers are written seven bits at a time, least
//! significant group first, with the high bit of every byte but the last set.
//! Signed ones write the magnitude the same way, except that the last byte
//! holds six bits of magnitude and carries the sign in its `0x40` bit.
pub mod encode;

use vstd::prelude::*;

verus! {

/// The kind of a node, written as a one-byte tag before the node's payload.
#[derive(Copy, Clone, Debug, Eq, PartialEq, Hash)]
pub enum NodeKind {
    /// "wrapper" node which only contains another node.
    Node,
    MapNode,
    List,
    /// raw binary data
    Raw,
    /// UTF-8 encoded string
    String,
    Bool,
    UnsignedVarInt,
    SignedVarInt,
    Float32,
    Float64,
}

/// The layout of a list node.
#[derive(Copy, Clone, Debug, Eq, PartialEq, Hash)]
pub enum ListKind {
    Verbatim,
    RunLength,
}

/// The tag byte of a node kind, as the format description numbers them.
pub open spec fn node_kind_tag(kind: NodeKind) -> u8 {
    match kind {
        NodeKind::Node => 0,
        NodeKind::List => 1,
        NodeKind::MapNode => 2,
        NodeKind::Raw => 3,
        NodeKind::String => 4,
        NodeKind::Bool => 5,
        NodeKind::UnsignedVarInt => 6,
        NodeKind::SignedVarInt => 7,
        NodeKind::Float32 => 8,
        NodeKind::Float64 => 9,
    }
}

/// The tag byte of a list layout.
pub open spec fn list_kind_tag(kind: ListKind) -> u8 {
    match kind {
        ListKind::Verbatim => 0,
        ListKind::RunLength => 1,
    }
}

impl NodeKind {
    pub fn tag(self) -> (r: u8)
        ensures
            r == node_kind_tag(self),
    {
        match self {
            NodeKind::Node => 0,
            NodeKind::List => 1,
            NodeKind::MapNode => 2,
            NodeKind::Raw => 3,
            NodeKind::String => 4,
            NodeKind::Bool => 5,
            NodeKind::UnsignedVarInt => 6,
            NodeKind::SignedVarInt => 7,
            NodeKind::Float32 => 8,
            NodeKind::Float64 => 9,
        }
    }
}

impl ListKind {
    pub fn tag(self) -> (r: u8)
        ensures
            r == list_kind_tag(self),
    {
        match self {
            ListKind::Verbatim => 0,
            ListKind::RunLength => 1,
        }
    }
}

/// Distinct node kinds have distinct tags, so a reader can tell them apart.
pub proof fn lemma_node_kind_tags_distinct(a: NodeKind, b: NodeKind)
    ensures
        node_kind_tag(a) == node_kind_tag(b) <==> a == b,
{
}

/// The unsigned variable-length encoding of `v`.
pub open spec fn uvarint(v: nat) -> Seq<u8>
    decreases v,
{
    if v <= 0x7f {
        seq![v as u8]
    } else {
        seq![(0x80 + v % 0x80) as u8] + uvarint(v / 0x80)
    }
}

/// The signed variable-length encoding of a magnitude `m`, whose last byte
/// carries `sign`.
pub open spec fn svarint_magnitude(m: nat, sign: u8) -> Seq<u8>
    decreases m,
{
    if m <= 0x3f {
        seq![(sign + m) as u8]
    } else {
        seq![(0x80 + m % 0x80) as u8] + svarint_magnitude(m / 0x80, sign)
    }
}

/// The signed variable-length encoding of `v`.
pub open spec fn svarint(v: int) -> Seq<u8> {
    if v >= 0 {
        svarint_magnitude(v as nat, 0)
    } else {
        svarint_magnitude((-v) as nat, 0x40)
    }
}

/// Reads an unsigned variable-length integer from the front of `bytes`,
/// giving the value and the number of bytes it took.
pub open spec fn read_uvarint(bytes: Seq<u8>) -> Option<(nat, nat)>
    decreases bytes.len(),
{
    if bytes.len() == 0 {
        None
    } else if bytes[0] < 0x80 {
        Some((bytes[0] as nat, 1))
    } else {
        match read_uvarint(bytes.drop_first()) {
            Some((v, n)) => Some((((bytes[0] - 0x80) + 0x80 * v) as nat, n + 1)),
            None => None,
        }
    }
}

/// Reads a signed variable-length integer from the front of `bytes`.
pub open spec fn read_svarint_magnitude(bytes: Seq<u8>) -> Option<(nat, bool, nat)>
    decreases bytes.len(),
{
    if bytes.len() == 0 {
        None
    } else if bytes[0] < 0x80 {
        Some(((bytes[0] % 0x40) as nat, bytes[0] >= 0x40, 1))
    } else {
        match read_svarint_magnitude(bytes.drop_first()) {
            Some((v, neg, n)) => Some((((bytes[0] - 0x80) + 0x80 * v) as nat, neg, n + 1)),
            None => None,
        }
    }
}

pub open spec fn read_svarint(bytes: Seq<u8>) -> Option<(int, nat)> {
    match read_svarint_magnitude(bytes) {
        Some((m, neg, n)) => Some((if neg { -m } else { m as int }, n)),
        None => None,
    }
}

/// Reading back an unsigned variable-length integer gives the value that was
/// written and the length of its encoding, whatever follows it.
pub proof fn lemma_uvarint_roundtrip(v: nat, rest: Seq<u8>)
    ensures
        read_uvarint(uvarint(v) + rest) == Some((v, uvarint(v).len())),
    decreases v,
{
    let s = uvarint(v) + rest;
    if v <= 0x7f {
    } else {
        lemma_uvarint_roundtrip(v / 0x80, rest);
        assert(s.drop_first() =~= uvarint(v / 0x80) + rest);
    }
}

/// Reading back a signed variable-length integer gives the value that was
/// written and the length of its encoding, whatever follows it.
pub proof fn lemma_svarint_roundtrip(v: int, rest: Seq<u8>)
    ensures
        read_svarint(svarint(v) + rest) == Some((v, svarint(v).len())),
{
    if v >= 0 {
        lemma_svarint_magnitude_roundtrip(v as nat, 0, rest);
    } else {
        lemma_svarint_magnitude_roundtrip((-v) as nat, 0x40, rest);
    }
}

proof fn lemma_svarint_magnitude_roundtrip(m: nat, sign: u8, rest: Seq<u8>)
    requires
        sign == 0 || sign == 0x40,
    ensures
        read_svarint_magnitude(svarint_magnitude(m, sign) + rest) == Some(
            (m, sign == 0x40, svarint_magnitude(m, sign).len()),
        ),
    decreases m,
{
    let s = svarint_magnitude(m, sign) + rest;
    if m <= 0x3f {
    } else {
        lemma_svarint_magnitude_roundtrip(m / 0x80, sign, rest);
        assert(s.drop_first() =~= svarint_magnitude(m / 0x80, sign) + rest);
    }
}

} // verus!
