//! Metadata values and the per-file metadata record ("object").
use vstd::prelude::*;
use crate::assoc::{keys_unique, to_map, lemma_to_map_facts, lemma_to_map_keys, lemma_to_map_push, lemma_to_map_update};
use libipld::Ipld;

verus! {

/// Declares libipld's dynamic value type, used as the opaque value of a
/// metadata entry.
#[verifier::external_type_specification]
#[verifier::external_body]
pub struct ExIpld(Ipld);

/// Relies on the derived `Clone` of `libipld::Ipld`: a clone equals the value it was cloned from.
pub assume_specification[ <Ipld as Clone>::clone ](v: &Ipld) -> (r: Ipld)
    ensures
        r == *v,
;

pub open spec fn entry_models(s: Seq<(String, Ipld)>) -> Seq<(Seq<char>, Ipld)> {
    s.map_values(|e: (String, Ipld)| (e.0@, e.1))
}

/// The metadata record of a file entry: string keys, each with one value.
/// Kept as a list of pairs with distinct keys: vstd specifies no map with `String` keys.
#[derive(Debug, Clone)]
pub struct Object {
    pub(crate) entries: Vec<(String, Ipld)>,
}

impl View for Object {
    type V = Map<Seq<char>, Ipld>;

    closed spec fn view(&self) -> Map<Seq<char>, Ipld> {
        to_map(entry_models(self.entries@))
    }
}

/// Index of `key` among the entries, if it is there.
fn find_entry(entries: &Vec<(String, Ipld)>, key: &String) -> (r: Option<usize>)
    ensures
        match r {
            Some(i) => i < entries.len() && entries@[i as int].0@ == key@,
            None => forall|i: int| 0 <= i < entries.len() ==> entries@[i].0@ != key@,
        },
{
    let mut i: usize = 0;
    while i < entries.len()
        invariant
            i <= entries.len(),
            forall|j: int| 0 <= j < i ==> entries@[j].0@ != key@,
        decreases entries.len() - i,
    {
        if entries[i].0 == *key {
            return Some(i);
        }
        i = i + 1;
    }
    None
}

impl Object {
    pub closed spec fn wf(&self) -> bool {
        keys_unique(entry_models(self.entries@))
    }

    /// An object with no entries.
    pub fn empty() -> (r: Object)
        ensures
            r.wf(),
            r@ == Map::<Seq<char>, Ipld>::empty(),
    {
        let r = Object { entries: Vec::new() };
        assert(entry_models(r.entries@) =~= Seq::empty());
        r
    }

    /// A new object holding the given metadata, or nothing.
    pub fn new(maybe_metadata: Option<&Object>) -> (r: Object)
        requires
            maybe_metadata matches Some(m) ==> m.wf(),
        ensures
            r.wf(),
            r@ == match maybe_metadata {
                Some(m) => m@,
                None => Map::empty(),
            },
    {
        let mut r = Object::empty();
        r.update(maybe_metadata);
        proof {
            if maybe_metadata is Some {
                assert(Map::<Seq<char>, Ipld>::empty().union_prefer_right(maybe_metadata.unwrap()@) =~= maybe_metadata.unwrap()@);
            }
        }
        r
    }

    /// A copy of this object.
    pub fn duplicate(&self) -> (r: Object)
        requires
            self.wf(),
        ensures
            r.wf(),
            r@ == self@,
    {
        let mut entries: Vec<(String, Ipld)> = Vec::new();
        let mut i: usize = 0;
        while i < self.entries.len()
            invariant
                i <= self.entries.len(),
                entries@.len() == i,
                forall|j: int| 0 <= j < i ==> entries@[j].0@ == self.entries@[j].0@ && entries@[j].1 == self.entries@[j].1,
            decreases self.entries.len() - i,
        {
            let k = self.entries[i].0.clone();
            let v = self.entries[i].1.clone();
            entries.push((k, v));
            i = i + 1;
        }
        assert(entry_models(entries@) =~= entry_models(self.entries@));
        Object { entries }
    }

    /// Sets `key` to `value`, replacing any earlier value.
    pub fn insert(&mut self, key: String, value: Ipld)
        requires
            old(self).wf(),
        ensures
            final(self).wf(),
            final(self)@ == old(self)@.insert(key@, value),
    {
        let ghost k = key@;
        let ghost v = value;
        match find_entry(&self.entries, &key) {
            Some(i) => {
                proof {
                    lemma_to_map_update(entry_models(self.entries@), i as int, v);
                }
                self.entries.set(i, (key, value));
                assert(entry_models(self.entries@) =~= entry_models(old(self).entries@).update(i as int, (k, v)));
            },
            None => {
                proof {
                    lemma_to_map_keys(entry_models(self.entries@));
                    assert(!to_map(entry_models(self.entries@)).contains_key(k));
                    lemma_to_map_push(entry_models(self.entries@), k, v);
                }
                self.entries.push((key, value));
                assert(entry_models(self.entries@) =~= entry_models(old(self).entries@).push((k, v)));
            },
        }
    }

    /// The value under `key`, if any.
    pub fn get(&self, key: &str) -> (r: Option<Ipld>)
        requires
            self.wf(),
        ensures
            match r {
                Some(v) => self@.contains_key(key@) && v == self@[key@],
                None => !self@.contains_key(key@),
            },
    {
        let k = key.to_owned();
        proof {
            lemma_to_map_facts(entry_models(self.entries@));
        }
        match find_entry(&self.entries, &k) {
            Some(i) => {
                assert(entry_models(self.entries@)[i as int].0 == key@);
                Some(self.entries[i].1.clone())
            },
            None => {
                assert forall|j: int| 0 <= j < entry_models(self.entries@).len() implies entry_models(self.entries@)[j].0 != key@ by {
                    assert(self.entries@[j].0@ != key@);
                }
                None
            },
        }
    }

    /// Merges `maybe_metadata` into this object: its keys are set, the others kept.
    pub fn update(&mut self, maybe_metadata: Option<&Object>)
        requires
            old(self).wf(),
            maybe_metadata matches Some(m) ==> m.wf(),
        ensures
            final(self).wf(),
            final(self)@ == match maybe_metadata {
                Some(m) => old(self)@.union_prefer_right(m@),
                None => old(self)@,
            },
    {
        match maybe_metadata {
            None => {},
            Some(m) => {
                let mut i: usize = 0;
                while i < m.entries.len()
                    invariant
                        self.wf(),
                        m.wf(),
                        i <= m.entries.len(),
                        self@ == old(self)@.union_prefer_right(to_map(entry_models(m.entries@.subrange(0, i as int)))),
                    decreases m.entries.len() - i,
                {
                    let ghost before = self@;
                    let k = m.entries[i].0.clone();
                    let v = m.entries[i].1.clone();
                    self.insert(k, v);
                    proof {
                        let pre = entry_models(m.entries@.subrange(0, i as int));
                        assert(entry_models(m.entries@.subrange(0, i + 1)) =~= pre.push((m.entries@[i as int].0@, m.entries@[i as int].1)));
                        assert(pre.push((k@, v)).drop_last() =~= pre);
                        assert(old(self)@.union_prefer_right(to_map(pre)).insert(k@, v) =~= old(self)@.union_prefer_right(to_map(pre).insert(k@, v)));
                    }
                    i = i + 1;
                }
                assert(m.entries@.subrange(0, i as int) =~= m.entries@);
            },
        }
        proof {
            if maybe_metadata is None {
                assert(self@ == old(self)@);
            }
        }
    }

    /// The entries of this object, in the order they were first set.
    pub fn entries(&self) -> (r: Vec<(String, Ipld)>)
        requires
            self.wf(),
        ensures
            keys_unique(entry_models(r@)),
            to_map(entry_models(r@)) == self@,
    {
        let d = self.duplicate();
        d.entries
    }

    /// An object holding the given entries; a later entry wins over an earlier one.
    pub fn from_entries(entries: &Vec<(String, Ipld)>) -> (r: Object)
        ensures
            r.wf(),
            r@ == to_map(entry_models(entries@)),
    {
        let mut r = Object::empty();
        let mut i: usize = 0;
        while i < entries.len()
            invariant
                r.wf(),
                i <= entries.len(),
                r@ == to_map(entry_models(entries@.subrange(0, i as int))),
            decreases entries.len() - i,
        {
            r.insert(entries[i].0.clone(), entries[i].1.clone());
            proof {
                let pre = entry_models(entries@.subrange(0, i as int));
                assert(entry_models(entries@.subrange(0, i + 1)) =~= pre.push((entries@[i as int].0@, entries@[i as int].1)));
                assert(pre.push((entries@[i as int].0@, entries@[i as int].1)).drop_last() =~= pre);
            }
            i = i + 1;
        }
        assert(entries@.subrange(0, i as int) =~= entries@);
        r
    }
}

} // verus!
