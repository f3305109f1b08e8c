//! Content identifiers, held as their binary form.
use vstd::prelude::*;

verus! {

/// Multicodec code of raw (opaque) file blocks.
pub const RAW_CODEC: u8 = 0x55;

/// Multicodec code of the deterministic binary map encoding of nodes and manifests.
pub const DAG_CBOR_CODEC: u8 = 0x71;

/// A content identifier: the binary form of a self-describing hash
/// (version, codec, multihash).
#[derive(Debug, Clone)]
pub struct Cid {
    pub bytes: Vec<u8>,
}

impl View for Cid {
    type V = Seq<u8>;

    open spec fn view(&self) -> Seq<u8> {
        self.bytes@
    }
}

/// The binary form of the reserved marker for an absent or removed entry:
/// version 1, codec 0, an empty identity hash.
pub open spec fn tombstone_bytes() -> Seq<u8> {
    seq![1u8, 0u8, 0u8, 0u8]
}

/// Whether a binary CID names a block in the DAG-CBOR encoding (a node or a
/// manifest) by its Blake3-256 digest: version 1, codec, hash code, digest length.
pub open spec fn is_dag_cbor_cid(b: Seq<u8>) -> bool {
    b.len() == 36 && b[0] == 1u8 && b[1] == DAG_CBOR_CODEC && b[2] == 0x1eu8 && b[3] == 0x20u8
}

/// Whether a binary CID names a raw (opaque bytes) block.
pub open spec fn is_raw_cid(b: Seq<u8>) -> bool {
    b.len() >= 2 && b[0] == 1u8 && b[1] == RAW_CODEC
}

pub fn bytes_equal(a: &Vec<u8>, b: &Vec<u8>) -> (r: bool)
    ensures
        r == (a@ == b@),
{
    if a.len() != b.len() {
        return false;
    }
    let mut i: usize = 0;
    while i < a.len()
        invariant
            a.len() == b.len(),
            i <= a.len(),
            a@.subrange(0, i as int) == b@.subrange(0, i as int),
        decreases a.len() - i,
    {
        if a[i] != b[i] {
            assert(a@[i as int] != b@[i as int]);
            return false;
        }
        assert(a@.subrange(0, i + 1) =~= a@.subrange(0, i as int).push(a@[i as int]));
        assert(b@.subrange(0, i + 1) =~= b@.subrange(0, i as int).push(b@[i as int]));
        i = i + 1;
    }
    assert(a@ =~= a@.subrange(0, i as int));
    assert(b@ =~= b@.subrange(0, i as int));
    true
}

pub fn copy_bytes(a: &Vec<u8>) -> (r: Vec<u8>)
    ensures
        r@ == a@,
{
    let mut r: Vec<u8> = Vec::new();
    let mut i: usize = 0;
    while i < a.len()
        invariant
            i <= a.len(),
            r@ == a@.subrange(0, i as int),
        decreases a.len() - i,
    {
        r.push(a[i]);
        assert(a@.subrange(0, i + 1) =~= a@.subrange(0, i as int).push(a@[i as int]));
        i = i + 1;
    }
    assert(a@ =~= a@.subrange(0, i as int));
    r
}

impl Cid {
    /// A CID from its binary form.
    pub fn from_bytes(bytes: Vec<u8>) -> (r: Cid)
        ensures
            r@ == bytes@,
    {
        Cid { bytes }
    }

    /// The binary form of this CID.
    pub fn to_bytes(&self) -> (r: Vec<u8>)
        ensures
            r@ == self@,
    {
        copy_bytes(&self.bytes)
    }

    /// A copy of this CID.
    pub fn duplicate(&self) -> (r: Cid)
        ensures
            r@ == self@,
    {
        Cid { bytes: copy_bytes(&self.bytes) }
    }

    /// The reserved marker for an absent or removed entry; no computed hash equals it.
    pub fn tombstone() -> (r: Cid)
        ensures
            r@ == tombstone_bytes(),
    {
        let r = Cid { bytes: vec![1u8, 0u8, 0u8, 0u8] };
        assert(r@ =~= tombstone_bytes());
        r
    }

    pub fn is_tombstone(&self) -> (r: bool)
        ensures
            r == (self@ == tombstone_bytes()),
    {
        let t = Cid::tombstone();
        bytes_equal(&self.bytes, &t.bytes)
    }

    /// Whether this CID names a raw block of file bytes (not a node or manifest).
    pub fn is_raw(&self) -> (r: bool)
        ensures
            r == is_raw_cid(self@),
    {
        self.bytes.len() >= 2 && self.bytes[0] == 1u8 && self.bytes[1] == RAW_CODEC
    }
}

impl PartialEq for Cid {
    fn eq(&self, other: &Cid) -> (r: bool) {
        bytes_equal(&self.bytes, &other.bytes)
    }
}

impl vstd::std_specs::cmp::PartialEqSpecImpl for Cid {
    open spec fn obeys_eq_spec() -> bool {
        true
    }

    open spec fn eq_spec(&self, other: &Cid) -> bool {
        self@ == other@
    }
}

impl Eq for Cid {
}

} // verus!
