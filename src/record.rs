//! Records: the shape in which nodes and manifests are written to blocks. A
//! record is a map from names to links, integers, or maps of metadata maps.
use vstd::prelude::*;
use crate::assoc::{keys_unique, to_map};
use crate::cid::{Cid, is_dag_cbor_cid, tombstone_bytes};
use crate::cbor::well_sized;
use crate::text::metadata_key;
use crate::manifest::{version_key, previous_key, data_key};
use crate::object::entry_models;
use libipld::Ipld;
use libipld::Ipld::StringMap;
use libipld::block::Block;
use libipld::cbor::DagCborCodec;
use libipld::codec::Codec;
use libipld::multihash::Code;
use libipld::store::DefaultParams;
use libipld::Cid as IpldCid;
use std::collections::BTreeMap;

verus! {

/// One field of a record.
#[derive(Debug, Clone)]
pub enum Field {
    Link(Cid),
    Integer(i128),
    /// Names, each with a metadata map (key to opaque value).
    Meta(Vec<(String, Vec<(String, Ipld)>)>),
}

/// The mathematical content of a [`Field`].
pub enum FieldModel {
    Link(Seq<u8>),
    Integer(int),
    Meta(Map<Seq<char>, Map<Seq<char>, Ipld>>),
}

pub open spec fn meta_models(s: Seq<(String, Vec<(String, Ipld)>)>) -> Seq<(Seq<char>, Map<Seq<char>, Ipld>)> {
    s.map_values(|e: (String, Vec<(String, Ipld)>)| (e.0@, to_map(entry_models(e.1@))))
}

impl View for Field {
    type V = FieldModel;

    open spec fn view(&self) -> FieldModel {
        match self {
            Field::Link(c) => FieldModel::Link(c@),
            Field::Integer(i) => FieldModel::Integer(*i as int),
            Field::Meta(m) => FieldModel::Meta(to_map(meta_models(m@))),
        }
    }
}

pub open spec fn field_models(s: Seq<(String, Field)>) -> Seq<(Seq<char>, FieldModel)> {
    s.map_values(|e: (String, Field)| (e.0@, e.1@))
}

/// A record: named fields; a later field wins over an earlier one of the same name.
#[derive(Debug, Clone)]
pub struct Record {
    pub fields: Vec<(String, Field)>,
}

impl View for Record {
    type V = Map<Seq<char>, FieldModel>;

    open spec fn view(&self) -> Map<Seq<char>, FieldModel> {
        to_map(field_models(self.fields@))
    }
}

/// The record of an empty node: an empty metadata map and nothing else.
pub open spec fn empty_node_record() -> Map<Seq<char>, FieldModel> {
    Map::<Seq<char>, FieldModel>::empty().insert(metadata_key(), FieldModel::Meta(Map::empty()))
}

/// A link that libipld reads back as a CID: the tombstone, or a DAG-CBOR Blake3 CID.
pub open spec fn is_plain_link(b: Seq<u8>) -> bool {
    b == tombstone_bytes() || is_dag_cbor_cid(b)
}

/// The record of a manifest whose version fits 64 bits and whose links are plain.
pub open spec fn is_plain_manifest_record(r: Map<Seq<char>, FieldModel>, version: int, previous: Seq<u8>, data: Seq<u8>) -> bool {
    &&& 0 <= version <= u64::MAX
    &&& is_plain_link(previous)
    &&& is_plain_link(data)
    &&& r == Map::<Seq<char>, FieldModel>::empty().insert(version_key(), FieldModel::Integer(version))
        .insert(previous_key(), FieldModel::Link(previous)).insert(data_key(), FieldModel::Link(data))
}

/// A link that libipld writes in full and reads back: a version 1 CID of a
/// DAG-CBOR or raw block by its Blake3-256 digest.
pub open spec fn is_block_link(b: Seq<u8>) -> bool {
    b.len() == 36 && b[0] == 1u8 && (b[1] == 0x71u8 || b[1] == 0x55u8) && b[2] == 0x1eu8 && b[3] == 0x20u8
}

/// A record that decodes back to itself: block links, 64-bit integers, and
/// metadata maps that are all empty (no opaque values).
pub open spec fn is_simple_record(r: Map<Seq<char>, FieldModel>) -> bool {
    forall|k: Seq<char>| #[trigger] r.contains_key(k) ==> match r[k] {
        FieldModel::Link(b) => is_block_link(b),
        FieldModel::Integer(i) => -18446744073709551616 <= i <= 18446744073709551615,
        FieldModel::Meta(m) => forall|n: Seq<char>| #[trigger] m.contains_key(n) ==> m[n] == Map::<Seq<char>, Ipld>::empty(),
    }
}

/// The encoded block of a record and its CID, as libipld computes them;
/// `None` where libipld refuses the record.
pub uninterp spec fn record_block_of(r: Map<Seq<char>, FieldModel>) -> Option<(Seq<u8>, Seq<u8>)>;

/// The record that libipld decodes from a block; `None` where the block is
/// not a map of such fields.
pub uninterp spec fn decoded_record_of(b: Seq<u8>) -> Option<Map<Seq<char>, FieldModel>>;

/// Relies on libipld's `Block::encode` with `DagCborCodec` and Blake3-256: a
/// record becomes an `Ipld` map field by field (a link, an integer, or a map of
/// maps); the CID is a version 1 DAG-CBOR CID of a 32-byte Blake3 digest.
/// Maps are written in key order and the fields have distinct names, so the
/// result depends on the record's content only. libipld refuses only links it cannot parse, integers beyond
/// 64 bits and blocks over 1 MiB, so the empty node's record and a small
/// manifest record with plain links always encode. A simple record's block is
/// well sized (three levels at most, exact lengths) and decodes back to it.
#[verifier::external_body]
fn encode_record(rec: &Record) -> (r: Option<(Cid, Vec<u8>)>)
    requires
        keys_unique(field_models(rec.fields@)),
    ensures
        match r {
            Some((c, d)) => record_block_of(rec@) == Some((c@, d@)) && is_dag_cbor_cid(c@),
            None => record_block_of(rec@) is None,
        },
        rec@ == empty_node_record() ==> r is Some,
        forall|v: int, p: Seq<u8>, d: Seq<u8>| #[trigger] is_plain_manifest_record(rec@, v, p, d) ==> r is Some,
        r is Some && is_simple_record(rec@) ==> well_sized(r->Some_0.1@) && decoded_record_of(r->Some_0.1@) == Some(rec@),
{
    let mut map = BTreeMap::new();
    for (k, f) in &rec.fields {
        map.insert(k.clone(), match f {
            Field::Link(c) => Ipld::Link(IpldCid::try_from(c.bytes.as_slice()).ok()?),
            Field::Integer(i) => Ipld::Integer(*i),
            Field::Meta(m) => StringMap(m.iter().map(|(n, e)| (n.clone(), StringMap(e.iter().cloned().collect()))).collect()),
        });
    }
    let b = Block::<DefaultParams>::encode(DagCborCodec, Code::Blake3_256, &StringMap(map)).ok()?;
    Some((Cid { bytes: b.cid().to_bytes() }, b.data().to_vec()))
}

/// Relies on libipld's `DagCborCodec::decode` into `Ipld`: a block that is a
/// map whose values are links, integers or maps of maps becomes the record of
/// those fields, each name once (they come from a map); anything else gives
/// `None`. The result depends on the bytes only. A well-sized block declares
/// no length beyond its bytes and nests boundedly, so decoding it neither
/// over-allocates nor recurses without bound.
#[verifier::external_body]
fn decode_record(bytes: &Vec<u8>) -> (r: Option<Record>)
    requires
        well_sized(bytes@),
    ensures
        match r {
            Some(rec) => decoded_record_of(bytes@) == Some(rec@) && keys_unique(field_models(rec.fields@)),
            None => decoded_record_of(bytes@) is None,
        },
{
    let StringMap(map) = DagCborCodec.decode::<Ipld>(bytes).ok()? else { return None };
    let mut fields = Vec::new();
    for (k, v) in map {
        let f = match v {
            Ipld::Link(c) => Field::Link(Cid { bytes: c.to_bytes() }),
            Ipld::Integer(i) => Field::Integer(i),
            StringMap(m) => Field::Meta(m.into_iter().map(|(n, e)| match e {
                StringMap(e) => Some((n, e.into_iter().collect())),
                _ => None,
            }).collect::<Option<_>>()?),
            _ => return None,
        };
        fields.push((k, f));
    }
    Some(Record { fields })
}

impl Record {
    /// The encoded block of this record: its CID and its bytes.
    pub fn encode(&self) -> (r: Option<(Cid, Vec<u8>)>)
        requires
            keys_unique(field_models(self.fields@)),
        ensures
            match r {
                Some((c, d)) => record_block_of(self@) == Some((c@, d@)) && is_dag_cbor_cid(c@),
                None => record_block_of(self@) is None,
            },
            self@ == empty_node_record() ==> r is Some,
            forall|v: int, p: Seq<u8>, d: Seq<u8>| #[trigger] is_plain_manifest_record(self@, v, p, d) ==> r is Some,
            r is Some && is_simple_record(self@) ==> well_sized(r->Some_0.1@) && decoded_record_of(r->Some_0.1@) == Some(self@),
    {
        encode_record(self)
    }

    /// The record that a block holds.
    pub fn decode(bytes: &Vec<u8>) -> (r: Option<Record>)
        requires
            well_sized(bytes@),
        ensures
            match r {
                Some(rec) => decoded_record_of(bytes@) == Some(rec@) && keys_unique(field_models(rec.fields@)),
                None => decoded_record_of(bytes@) is None,
            },
    {
        decode_record(bytes)
    }

    /// Whether no two fields share a name.
    pub fn names_distinct(&self) -> (r: bool)
        ensures
            r == keys_unique(field_models(self.fields@)),
    {
        let ghost s = field_models(self.fields@);
        let mut i: usize = 0;
        while i < self.fields.len()
            invariant
                s == field_models(self.fields@),
                i <= self.fields.len(),
                forall|a: int, b: int| 0 <= a < i && 0 <= b < s.len() && a != b ==> s[a].0 != s[b].0,
            decreases self.fields.len() - i,
        {
            let mut j: usize = 0;
            while j < self.fields.len()
                invariant
                    s == field_models(self.fields@),
                    i < self.fields.len(),
                    j <= self.fields.len(),
                    forall|b: int| 0 <= b < j && b != i ==> s[i as int].0 != s[b].0,
                decreases self.fields.len() - j,
            {
                if j != i && self.fields[i].0 == self.fields[j].0 {
                    assert(s[i as int].0 == s[j as int].0);
                    return false;
                }
                j = j + 1;
            }
            i = i + 1;
        }
        true
    }
}

} // verus!
