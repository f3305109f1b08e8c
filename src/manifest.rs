//! The root record of one tree revision.
use vstd::prelude::*;
use crate::cid::{Cid, is_dag_cbor_cid, tombstone_bytes};
use crate::cbor::{well_sized, is_well_sized};
use crate::assoc::{to_map, keys_unique};
use crate::record::{Record, Field, FieldModel, field_models, record_block_of, decoded_record_of, is_plain_link, is_plain_manifest_record, is_block_link, is_simple_record};

verus! {

/// The schema version written into new manifests.
pub const MANIFEST_VERSION: u64 = 1;

/// The mathematical content of a [`Manifest`].
pub struct ManifestModel {
    pub version: u64,
    pub previous: Seq<u8>,
    pub data: Seq<u8>,
}

/// The root of one revision: a schema version, the CID of the manifest it
/// replaced (the tombstone if none) and the CID of the root node.
#[derive(Debug, Clone)]
pub struct Manifest {
    version: u64,
    previous: Cid,
    data: Cid,
}

impl View for Manifest {
    type V = ManifestModel;

    closed spec fn view(&self) -> ManifestModel {
        ManifestModel { version: self.version, previous: self.previous@, data: self.data@ }
    }
}

/// Why a manifest could not be rebuilt from decoded fields.
#[derive(Debug, Clone, PartialEq, Eq)]
pub enum ManifestError {
    /// A required field was absent or had the wrong shape; names the field.
    MissingField(String),
}

impl Manifest {
    /// A manifest of the current schema version with no previous revision and no data.
    pub fn new() -> (r: Manifest)
        ensures
            r@.version == MANIFEST_VERSION,
            r@.previous == tombstone_bytes(),
            r@.data == tombstone_bytes(),
    {
        Manifest { version: MANIFEST_VERSION, previous: Cid::tombstone(), data: Cid::tombstone() }
    }

    /// A manifest from its decoded fields; each one is required.
    pub fn from_parts(version: Option<u64>, previous: Option<Cid>, data: Option<Cid>) -> (r: Result<Manifest, ManifestError>)
        ensures
            match r {
                Ok(m) => version == Some(m@.version) && previous is Some && previous.unwrap()@ == m@.previous && data is Some && data.unwrap()@ == m@.data,
                Err(ManifestError::MissingField(f)) => version is None && f@ == "version"@
                    || version is Some && previous is None && f@ == "previous link"@
                    || version is Some && previous is Some && data is None && f@ == "data link"@,
            },
    {
        let version = match version {
            Some(v) => v,
            None => return Err(ManifestError::MissingField("version".to_owned())),
        };
        let previous = match previous {
            Some(p) => p,
            None => return Err(ManifestError::MissingField("previous link".to_owned())),
        };
        let data = match data {
            Some(d) => d,
            None => return Err(ManifestError::MissingField("data link".to_owned())),
        };
        Ok(Manifest { version, previous, data })
    }

    pub fn version(&self) -> (r: u64)
        ensures
            r == self@.version,
    {
        self.version
    }

    pub fn previous(&self) -> (r: &Cid)
        ensures
            r@ == self@.previous,
    {
        &self.previous
    }

    pub fn data(&self) -> (r: &Cid)
        ensures
            r@ == self@.data,
    {
        &self.data
    }

    pub fn set_data(&mut self, cid: Cid)
        ensures
            final(self)@ == (ManifestModel { data: cid@, ..old(self)@ }),
    {
        self.data = cid;
    }

    pub fn set_previous(&mut self, cid: Cid)
        ensures
            final(self)@ == (ManifestModel { previous: cid@, ..old(self)@ }),
    {
        self.previous = cid;
    }

    /// A copy of this manifest.
    pub fn duplicate(&self) -> (r: Manifest)
        ensures
            r@ == self@,
    {
        Manifest { version: self.version, previous: self.previous.duplicate(), data: self.data.duplicate() }
    }
}

impl Default for Manifest {
    fn default() -> (r: Manifest)
        ensures
            r@.version == MANIFEST_VERSION,
            r@.previous == tombstone_bytes(),
            r@.data == tombstone_bytes(),
    {
        Manifest::new()
    }
}

pub open spec fn version_key() -> Seq<char> {
    seq!['v', 'e', 'r', 's', 'i', 'o', 'n']
}

pub open spec fn previous_key() -> Seq<char> {
    seq!['p', 'r', 'e', 'v', 'i', 'o', 'u', 's']
}

pub open spec fn data_key() -> Seq<char> {
    seq!['d', 'a', 't', 'a']
}

/// The record a manifest is written as: its version, previous link and data link.
pub open spec fn manifest_record(m: ManifestModel) -> Map<Seq<char>, FieldModel> {
    Map::<Seq<char>, FieldModel>::empty()
        .insert(version_key(), FieldModel::Integer(m.version as int))
        .insert(previous_key(), FieldModel::Link(m.previous))
        .insert(data_key(), FieldModel::Link(m.data))
}

/// The encoded block of a manifest and its CID.
pub open spec fn manifest_block_of(m: ManifestModel) -> Option<(Seq<u8>, Seq<u8>)> {
    record_block_of(manifest_record(m))
}

/// The version a record gives: an integer that fits 64 bits.
pub open spec fn record_version(r: Map<Seq<char>, FieldModel>) -> Option<u64> {
    if r.contains_key(version_key()) && r[version_key()] is Integer
        && 0 <= r[version_key()]->Integer_0 <= u64::MAX {
        Some(r[version_key()]->Integer_0 as u64)
    } else {
        None
    }
}

/// The link a record holds under `key`.
pub open spec fn record_link(r: Map<Seq<char>, FieldModel>, key: Seq<char>) -> Option<Seq<u8>> {
    if r.contains_key(key) && r[key] is Link {
        Some(r[key]->Link_0)
    } else {
        None
    }
}

/// The index of the last field named `name`.
fn find_field(rec: &Record, name: &str) -> (r: Option<usize>)
    ensures
        match r {
            Some(j) => j < rec.fields.len() && field_models(rec.fields@)[j as int].0 == name@
                && forall|x: int| j < x < rec.fields.len() ==> field_models(rec.fields@)[x].0 != name@,
            None => forall|x: int| 0 <= x < rec.fields.len() ==> field_models(rec.fields@)[x].0 != name@,
        },
{
    let key = name.to_owned();
    let mut found: Option<usize> = None;
    let mut i: usize = 0;
    while i < rec.fields.len()
        invariant
            key@ == name@,
            i <= rec.fields.len(),
            match found {
                Some(j) => j < i && field_models(rec.fields@)[j as int].0 == name@
                    && forall|x: int| j < x < i ==> field_models(rec.fields@)[x].0 != name@,
                None => forall|x: int| 0 <= x < i ==> field_models(rec.fields@)[x].0 != name@,
            },
        decreases rec.fields.len() - i,
    {
        if rec.fields[i].0 == key {
            found = Some(i);
        }
        i = i + 1;
    }
    found
}

proof fn lemma_field_lookup(rec: &Record, name: Seq<char>, r: Option<usize>)
    requires
        match r {
            Some(j) => j < rec.fields.len() && field_models(rec.fields@)[j as int].0 == name
                && forall|x: int| j < x < rec.fields.len() ==> field_models(rec.fields@)[x].0 != name,
            None => forall|x: int| 0 <= x < rec.fields.len() ==> field_models(rec.fields@)[x].0 != name,
        },
    ensures
        match r {
            Some(j) => rec@.contains_key(name) && rec@[name] == rec.fields@[j as int].1@,
            None => !rec@.contains_key(name),
        },
{
    let s = field_models(rec.fields@);
    match r {
        Some(j) => {
            crate::assoc::lemma_to_map_last(s, j as int);
        },
        None => {
            crate::assoc::lemma_to_map_keys(s);
            if rec@.contains_key(name) {
                let x = choose|x: int| 0 <= x < s.len() && s[x].0 == name;
            }
        },
    }
}

impl Manifest {
    /// The record this manifest is written as.
    pub fn to_record(&self) -> (r: Record)
        ensures
            r@ == manifest_record(self@),
            keys_unique(field_models(r.fields@)),
    {
        let mut fields: Vec<(String, Field)> = Vec::new();
        fields.push(("version".to_owned(), Field::Integer(self.version as i128)));
        fields.push(("previous".to_owned(), Field::Link(self.previous.duplicate())));
        fields.push(("data".to_owned(), Field::Link(self.data.duplicate())));
        proof {
            reveal_strlit("version");
            reveal_strlit("previous");
            reveal_strlit("data");
            let fm = field_models(fields@);
            assert(fm.drop_last() =~= fm.subrange(0, 2));
            assert(fm.subrange(0, 2).drop_last() =~= fm.subrange(0, 1));
            assert(fm.subrange(0, 1).drop_last() =~= Seq::<(Seq<char>, FieldModel)>::empty());
            assert(to_map(Seq::<(Seq<char>, FieldModel)>::empty()) == Map::<Seq<char>, FieldModel>::empty());
            assert(fm.subrange(0, 1).last() == fm[0]);
            assert(fm.subrange(0, 2).last() == fm[1]);
            assert(to_map(fm.subrange(0, 1)) == Map::<Seq<char>, FieldModel>::empty().insert(fm[0].0, fm[0].1));
            assert(to_map(fm.subrange(0, 2)) == to_map(fm.subrange(0, 1)).insert(fm[1].0, fm[1].1));
            assert(to_map(fm) == to_map(fm.subrange(0, 2)).insert(fm[2].0, fm[2].1));
            assert(fm[0].0 =~= version_key());
            assert(fm[1].0 =~= previous_key());
            assert(fm[2].0 =~= data_key());
            assert(to_map(fm) =~= manifest_record(self@));
            assert(version_key().len() != previous_key().len() && version_key().len() != data_key().len()
                && previous_key().len() != data_key().len());
            assert(keys_unique(fm));
        }
        Record { fields }
    }

    /// The manifest a record describes.
    pub fn from_record(rec: &Record) -> (r: Result<Manifest, ManifestError>)
        ensures
            match r {
                Ok(m) => record_version(rec@) == Some(m@.version) && record_link(rec@, previous_key()) == Some(m@.previous)
                    && record_link(rec@, data_key()) == Some(m@.data),
                Err(ManifestError::MissingField(f)) => record_version(rec@) is None && f@ == "version"@
                    || record_version(rec@) is Some && record_link(rec@, previous_key()) is None && f@ == "previous link"@
                    || record_version(rec@) is Some && record_link(rec@, previous_key()) is Some
                        && record_link(rec@, data_key()) is None && f@ == "data link"@,
            },
    {
        proof {
            reveal_strlit("version");
            reveal_strlit("previous");
            reveal_strlit("data");
            assert("version"@ =~= version_key());
            assert("previous"@ =~= previous_key());
            assert("data"@ =~= data_key());
        }
        let vi = find_field(rec, "version");
        proof { lemma_field_lookup(rec, version_key(), vi); }
        let version = match vi {
            Some(j) => match &rec.fields[j].1 {
                Field::Integer(i) => if 0 <= *i && *i <= u64::MAX as i128 { Some(*i as u64) } else { None },
                _ => None,
            },
            None => None,
        };
        let pi = find_field(rec, "previous");
        proof { lemma_field_lookup(rec, previous_key(), pi); }
        let previous = match pi {
            Some(j) => match &rec.fields[j].1 {
                Field::Link(c) => Some(c.duplicate()),
                _ => None,
            },
            None => None,
        };
        let di = find_field(rec, "data");
        proof { lemma_field_lookup(rec, data_key(), di); }
        let data = match di {
            Some(j) => match &rec.fields[j].1 {
                Field::Link(c) => Some(c.duplicate()),
                _ => None,
            },
            None => None,
        };
        Manifest::from_parts(version, previous, data)
    }

    /// The encoded block of this manifest: its CID and its bytes.
    pub fn encode(&self) -> (r: Option<(Cid, Vec<u8>)>)
        ensures
            match r {
                Some((c, d)) => manifest_block_of(self@) == Some((c@, d@)) && is_dag_cbor_cid(c@),
                None => manifest_block_of(self@) is None,
            },
            is_plain_link(self@.previous) && is_plain_link(self@.data) ==> r is Some,
            r is Some && is_block_link(self@.previous) && is_block_link(self@.data) ==> well_sized(r->Some_0.1@)
                && decoded_record_of(r->Some_0.1@) == Some(manifest_record(self@)),
    {
        let rec = self.to_record();
        assert(is_block_link(self@.previous) && is_block_link(self@.data) ==> is_simple_record(rec@));
        assert(is_plain_link(self@.previous) && is_plain_link(self@.data)
            ==> is_plain_manifest_record(rec@, self@.version as int, self@.previous, self@.data));
        rec.encode()
    }

    /// The manifest a block holds; a block that is not a well-sized record lacks
    /// every field ("map").
    pub fn decode(bytes: &Vec<u8>) -> (r: Result<Manifest, ManifestError>)
        ensures
            !(well_sized(bytes@) && decoded_record_of(bytes@) is Some) ==> r is Err && r->Err_0 is MissingField && r->Err_0->MissingField_0@ == "map"@,
            well_sized(bytes@) && decoded_record_of(bytes@) is Some ==> ({
                let rec = decoded_record_of(bytes@).unwrap();
                match r {
                    Ok(m) => record_version(rec) == Some(m@.version) && record_link(rec, previous_key()) == Some(m@.previous)
                        && record_link(rec, data_key()) == Some(m@.data),
                    Err(ManifestError::MissingField(f)) => record_version(rec) is None && f@ == "version"@
                        || record_version(rec) is Some && record_link(rec, previous_key()) is None && f@ == "previous link"@
                        || record_version(rec) is Some && record_link(rec, previous_key()) is Some
                            && record_link(rec, data_key()) is None && f@ == "data link"@,
                }
            }),
    {
        if !is_well_sized(bytes) {
            return Err(ManifestError::MissingField("map".to_owned()));
        }
        match Record::decode(bytes) {
            Some(rec) => Manifest::from_record(&rec),
            None => Err(ManifestError::MissingField("map".to_owned())),
        }
    }
}

} // verus!
