//! Tree values: node hashes, addresses and frontiers, with their models and
//! the errors of decoding them.
use vstd::prelude::*;
use crate::bytes::{le_value, pow256};

verus! {

/// The modulus of the Pallas base field,
/// `0x40000000000000000000000000000000224698fc094cf91b992d30ed00000001`.
pub open spec fn pallas_modulus() -> nat {
    0x40 * pow256(31) + 0x224698fc094cf91b992d30ed00000001
}

/// Whether bytes are the canonical little-endian encoding of a Pallas base
/// field element: read little-endian, they are below the modulus.
pub open spec fn pallas_base_canonical(b: Seq<u8>) -> bool {
    le_value(b) < pallas_modulus()
}

/// Relies on orchard's `MerkleHashOrchard::from_bytes`, which calls
/// pasta_curves' `Fp::from_repr`: it yields a node exactly when the 32 bytes,
/// read as a little-endian integer, are below the field modulus.
#[verifier::external_body]
fn is_canonical_node(b: &[u8]) -> (r: bool)
    requires
        b@.len() == 32,
    ensures
        r == pallas_base_canonical(b@),
{
    let repr: [u8; 32] = b.try_into().unwrap();
    bool::from(orchard::tree::MerkleHashOrchard::from_bytes(&repr).is_some())
}

/// The number of set bits of `p`.
pub open spec fn ones(p: nat) -> nat
    decreases p,
{
    if p == 0 {
        0
    } else {
        p % 2 + ones(p / 2)
    }
}

/// Relies on incrementalmerkletree's `Position::past_ommer_count`: the number
/// of levels below the position's root level at which its bit is set.
#[verifier::external_body]
fn past_ommer_count(p: u64) -> (r: u8)
    ensures
        r as nat == ones(p as nat),
{
    incrementalmerkletree::Position::from(p).past_ommer_count()
}

/// Whether bytes are a node value: 32 bytes in canonical form.
pub open spec fn hash_valid(b: Seq<u8>) -> bool {
    b.len() == 32 && pallas_base_canonical(b)
}

/// Errors of decoding tree values.
#[derive(Clone, Copy, Debug, PartialEq, Eq, Structural)]
pub enum DecodeError {
    /// The input ended inside a value.
    UnexpectedEnd,
    /// Node bytes that are not a canonical field element.
    NonCanonicalHash,
    /// A stored 64-bit count that does not fit a `usize` here.
    OutOfRange(u64),
    /// A length prefix that is malformed, not minimal, or too large.
    InvalidCompactSize,
    /// A presence flag other than 0 or 1.
    InvalidOptionFlag(u8),
    /// The ommer count does not match the frontier's position.
    MalformedFrontier(u64),
    /// A legacy commitment tree whose filled slots describe no tree.
    MalformedLegacyTree,
    /// The frontier's position lies beyond the tree's depth.
    MaxDepthExceeded(u64),
    /// A legacy auth fragment whose two positions differ.
    FragmentPositionMismatch { outer: u64, inner: u64 },
    /// A legacy auth fragment whose position leaves no level to track.
    UntrackableFragment(u64),
    /// A bridge version tag other than 1 or 2.
    UnrecognizedVersion(u8),
}

/// Errors of assembling a frontier from its parts.
#[derive(Clone, Copy, Debug, PartialEq, Eq, Structural)]
pub enum FrontierError {
    /// The ommer count differs from what the position requires.
    PositionMismatch { expected_ommers: u8 },
}

/// A node of an Orchard note commitment tree, held as its 32 canonical bytes.
#[derive(Debug)]
pub struct OrchardHash {
    bytes: Vec<u8>,
}

impl View for OrchardHash {
    type V = Seq<u8>;

    closed spec fn view(&self) -> Seq<u8> {
        self.bytes@
    }
}

impl Clone for OrchardHash {
    fn clone(&self) -> (r: OrchardHash)
        ensures
            r@ == self@,
    {
        self.clone_node()
    }
}

impl OrchardHash {
    /// Every node holds 32 canonical bytes.
    #[verifier::type_invariant]
    pub open spec fn inv(&self) -> bool {
        hash_valid(self@)
    }

    /// The node with these bytes, where they are a canonical encoding.
    pub fn from_bytes(b: &[u8]) -> (r: Option<OrchardHash>)
        ensures
            r is Some <==> hash_valid(b@),
            r matches Some(h) ==> h@ == b@,
    {
        if b.len() != 32 {
            return None;
        }
        if !is_canonical_node(b) {
            return None;
        }
        let mut v: Vec<u8> = Vec::new();
        let mut i: usize = 0;
        while i < 32
            invariant
                b@.len() == 32,
                i <= 32,
                v@ == b@.subrange(0, i as int),
            decreases 32 - i,
        {
            v.push(b[i]);
            i = i + 1;
            assert(v@ =~= b@.subrange(0, i as int));
        }
        assert(v@ =~= b@);
        Some(OrchardHash { bytes: v })
    }

    /// A copy of the node.
    pub fn clone_node(&self) -> (r: OrchardHash)
        ensures
            r@ == self@,
    {
        proof {
            use_type_invariant(self);
        }
        OrchardHash { bytes: self.to_bytes() }
    }

    /// The node's bytes.
    pub fn to_bytes(&self) -> (r: Vec<u8>)
        ensures
            r@ == self@,
    {
        let mut v: Vec<u8> = Vec::new();
        let mut i: usize = 0;
        while i < self.bytes.len()
            invariant
                i <= self.bytes@.len(),
                v@ == self.bytes@.subrange(0, i as int),
            decreases self.bytes@.len() - i,
        {
            v.push(self.bytes[i]);
            i = i + 1;
            assert(v@ =~= self.bytes@.subrange(0, i as int));
        }
        assert(v@ =~= self.bytes@);
        v
    }

    /// Whether two nodes have the same bytes.
    pub fn equals(&self, other: &OrchardHash) -> (r: bool)
        ensures
            r == (self@ == other@),
    {
        let a = self.bytes.as_slice();
        let b = other.bytes.as_slice();
        if a.len() != b.len() {
            return false;
        }
        let mut i: usize = 0;
        while i < a.len()
            invariant
                a@ == self@,
                b@ == other@,
                a@.len() == b@.len(),
                i <= a@.len(),
                forall|j: int| 0 <= j < i ==> a@[j] == b@[j],
            decreases a@.len() - i,
        {
            if a[i] != b[i] {
                return false;
            }
            i = i + 1;
        }
        assert(a@ =~= b@);
        true
    }
}

/// The address of a node: its level above the leaves and its index there.
#[derive(Clone, Copy, Debug, PartialEq, Eq, Structural, Hash, PartialOrd, Ord)]
pub struct Address {
    pub level: u8,
    pub index: u64,
}

/// The address at `level` of the subtree that holds leaf `position`.
pub open spec fn above_position(level: u8, position: u64) -> Address {
    Address { level, index: position >> level }
}

/// The other child of the same parent.
pub open spec fn sibling(a: Address) -> Address {
    Address { level: a.level, index: a.index ^ 1 }
}

impl Address {
    /// The address at `level` of the subtree that holds leaf `position`.
    pub fn above_position(level: u8, position: u64) -> (r: Address)
        requires
            level < 64,
        ensures
            r == above_position(level, position),
    {
        Address { level, index: position >> level }
    }

    /// The other child of the same parent.
    pub fn sibling(&self) -> (r: Address)
        ensures
            r == sibling(*self),
    {
        Address { level: self.level, index: self.index ^ 1 }
    }
}

/// What a frontier holds: the position of its last leaf, that leaf, and the
/// ommers from the lowest level up.
pub struct FrontierModel {
    pub position: u64,
    pub leaf: Seq<u8>,
    pub ommers: Seq<Seq<u8>>,
}

/// A frontier is valid when its nodes are, its position fits a `usize` here,
/// and it has one ommer for each set bit of its position.
pub open spec fn frontier_valid(f: FrontierModel) -> bool {
    &&& f.position <= usize::MAX
    &&& hash_valid(f.leaf)
    &&& forall|i: int| 0 <= i < f.ommers.len() ==> hash_valid(#[trigger] f.ommers[i])
    &&& f.ommers.len() == ones(f.position as nat)
}

/// The right edge of a non-empty append-only tree.
#[derive(Clone, Debug)]
pub struct NonEmptyFrontier {
    position: u64,
    leaf: OrchardHash,
    ommers: Vec<OrchardHash>,
}

impl View for NonEmptyFrontier {
    type V = FrontierModel;

    closed spec fn view(&self) -> FrontierModel {
        FrontierModel {
            position: self.position,
            leaf: self.leaf@,
            ommers: self.ommers@.map_values(|h: OrchardHash| h@),
        }
    }
}

impl NonEmptyFrontier {
    /// The nodes are valid and the ommer count fits the position.
    pub open spec fn wf(&self) -> bool {
        &&& hash_valid(self@.leaf)
        &&& forall|i: int| 0 <= i < self@.ommers.len() ==> hash_valid(#[trigger] self@.ommers[i])
        &&& self@.ommers.len() == ones(self@.position as nat)
    }

    /// Assembles a frontier, where the ommer count fits the position.
    pub fn from_parts(position: u64, leaf: OrchardHash, ommers: Vec<OrchardHash>) -> (r: Result<
        NonEmptyFrontier,
        FrontierError,
    >)
        ensures
            ommers@.len() == ones(position as nat) <==> r is Ok,
            r matches Ok(f) ==> f.wf() && f@ == (FrontierModel {
                position,
                leaf: leaf@,
                ommers: ommers@.map_values(|h: OrchardHash| h@),
            }),
            r matches Err(FrontierError::PositionMismatch { expected_ommers }) ==> expected_ommers
                as nat == ones(position as nat),
    {
        proof {
            use_type_invariant(&leaf);
        }
        let mut i: usize = 0;
        while i < ommers.len()
            invariant
                i <= ommers@.len(),
                forall|j: int| 0 <= j < i ==> hash_valid(#[trigger] ommers@[j]@),
            decreases ommers@.len() - i,
        {
            let h = &ommers[i];
            proof {
                use_type_invariant(h);
            }
            i = i + 1;
        }
        let expected_ommers = past_ommer_count(position);
        if ommers.len() == expected_ommers as usize {
            Ok(NonEmptyFrontier { position, leaf, ommers })
        } else {
            Err(FrontierError::PositionMismatch { expected_ommers })
        }
    }

    /// The position of the last leaf.
    pub fn position(&self) -> (r: u64)
        ensures
            r == self@.position,
    {
        self.position
    }

    /// The last leaf.
    pub fn leaf(&self) -> (r: &OrchardHash)
        ensures
            r@ == self@.leaf,
    {
        &self.leaf
    }

    /// The ommers, lowest level first.
    pub fn ommers(&self) -> (r: &Vec<OrchardHash>)
        ensures
            r@.map_values(|h: OrchardHash| h@) == self@.ommers,
    {
        &self.ommers
    }
}

} // verus!
