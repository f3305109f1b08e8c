//! One directory level of the tree: named links plus the metadata of file entries.
use vstd::prelude::*;
use crate::assoc::{keys_unique, to_map, lemma_to_map_facts, lemma_to_map_keys, lemma_to_map_push, lemma_to_map_update, lemma_to_map_remove, lemma_to_map_insert_at, lemma_to_map_len};
use crate::cid::{Cid, is_dag_cbor_cid};
use crate::cbor::{well_sized, is_well_sized};
use crate::object::Object;
use libipld::Ipld;
use crate::record::{Record, Field, FieldModel, field_models, meta_models, record_block_of, decoded_record_of, empty_node_record, is_block_link, is_simple_record};
use crate::text::{text_lt, text_less, metadata_key, lemma_text_lt_irreflexive, lemma_text_lt_transitive, lemma_text_lt_total, lemma_text_lt_asymmetric};

verus! {

/// The name of the sidecar entry that holds the metadata of a node's files.
pub const METADATA_KEY: &'static str = ".metadata";

/// The mathematical content of a [`Node`].
pub struct NodeModel {
    /// Entry name to the CID it links to (a file's data or a child node).
    pub links: Map<Seq<char>, Seq<u8>>,
    /// Entry name to the metadata attached to it.
    pub objects: Map<Seq<char>, Map<Seq<char>, Ipld>>,
}

pub open spec fn link_models(s: Seq<(String, Cid)>) -> Seq<(Seq<char>, Seq<u8>)> {
    s.map_values(|e: (String, Cid)| (e.0@, e.1@))
}

pub open spec fn object_models(s: Seq<(String, Object)>) -> Seq<(Seq<char>, Map<Seq<char>, Ipld>)> {
    s.map_values(|e: (String, Object)| (e.0@, e.1@))
}

/// Names strictly increasing in character order.
pub open spec fn names_sorted(s: Seq<(String, Cid)>) -> bool {
    forall|a: int, b: int| 0 <= a < b < s.len() ==> text_lt(#[trigger] s[a].0@, #[trigger] s[b].0@)
}

/// What the metadata of `name` becomes once `maybe_metadata` is merged into it.
pub open spec fn merged_object(
    objects: Map<Seq<char>, Map<Seq<char>, Ipld>>,
    name: Seq<char>,
    maybe_metadata: Option<Map<Seq<char>, Ipld>>,
) -> Map<Seq<char>, Ipld> {
    let base = if objects.contains_key(name) { objects[name] } else { Map::empty() };
    match maybe_metadata {
        Some(m) => base.union_prefer_right(m),
        None => base,
    }
}

/// A directory level: links by name (kept in name order) and file metadata.
/// Its fields are private, so every node built through these methods is well formed.
/// Both maps are lists of pairs (vstd specifies no map with `String` keys); the
/// links are kept in name order, which listings and the tree walk rely on.
#[derive(Debug, Clone)]
pub struct Node {
    links: Vec<(String, Cid)>,
    objects: Vec<(String, Object)>,
}

impl View for Node {
    type V = NodeModel;

    closed spec fn view(&self) -> NodeModel {
        NodeModel { links: to_map(link_models(self.links@)), objects: to_map(object_models(self.objects@)) }
    }
}

proof fn lemma_sorted_unique(s: Seq<(String, Cid)>)
    requires
        names_sorted(s),
    ensures
        keys_unique(link_models(s)),
{
    assert forall|a: int, b: int| 0 <= a < link_models(s).len() && 0 <= b < link_models(s).len() && a != b implies link_models(s)[a].0 != link_models(s)[b].0 by {
        if a < b {
            assert(text_lt(s[a].0@, s[b].0@));
        } else {
            assert(text_lt(s[b].0@, s[a].0@));
        }
        lemma_text_lt_irreflexive(s[a].0@);
    }
}

impl Node {
    pub closed spec fn wf(&self) -> bool {
        &&& names_sorted(self.links@)
        &&& keys_unique(object_models(self.objects@))
        &&& forall|i: int| 0 <= i < self.objects@.len() ==> (#[trigger] self.objects@[i]).1.wf()
        &&& forall|i: int| 0 <= i < self.links@.len() ==> (#[trigger] self.links@[i]).0@ != metadata_key()
        &&& forall|i: int| 0 <= i < self.objects@.len() ==> (#[trigger] self.objects@[i]).0@ != metadata_key()
    }

    /// A well-formed node has no entry, and no metadata, under the reserved name.
    pub proof fn lemma_no_reserved_entry(&self)
        requires
            self.wf(),
        ensures
            !self@.links.contains_key(metadata_key()),
            !self@.objects.contains_key(metadata_key()),
    {
        lemma_to_map_keys(link_models(self.links@));
        lemma_to_map_keys(object_models(self.objects@));
        if self@.links.contains_key(metadata_key()) {
            let i = choose|i: int| 0 <= i < link_models(self.links@).len() && link_models(self.links@)[i].0 == metadata_key();
            assert(self.links@[i].0@ != metadata_key());
        }
        if self@.objects.contains_key(metadata_key()) {
            let i = choose|i: int| 0 <= i < object_models(self.objects@).len() && object_models(self.objects@)[i].0 == metadata_key();
            assert(self.objects@[i].0@ != metadata_key());
        }
    }

    /// An empty directory level.
    pub fn new() -> (r: Node)
        ensures
            r.wf(),
            r@.links == Map::<Seq<char>, Seq<u8>>::empty(),
            r@.objects == Map::<Seq<char>, Map<Seq<char>, Ipld>>::empty(),
    {
        let r = Node { links: Vec::new(), objects: Vec::new() };
        assert(link_models(r.links@) =~= Seq::empty());
        assert(object_models(r.objects@) =~= Seq::empty());
        r
    }

    /// A copy of this node.
    pub fn duplicate(&self) -> (r: Node)
        requires
            self.wf(),
        ensures
            r.wf(),
            r@ == self@,
    {
        let mut links: Vec<(String, Cid)> = Vec::new();
        let mut i: usize = 0;
        while i < self.links.len()
            invariant
                i <= self.links.len(),
                links@.len() == i,
                forall|j: int| 0 <= j < i ==> #[trigger] links@[j].0@ == self.links@[j].0@ && links@[j].1@ == self.links@[j].1@,
            decreases self.links.len() - i,
        {
            links.push((self.links[i].0.clone(), self.links[i].1.duplicate()));
            i = i + 1;
        }
        let mut objects: Vec<(String, Object)> = Vec::new();
        let mut i: usize = 0;
        while i < self.objects.len()
            invariant
                self.wf(),
                i <= self.objects.len(),
                objects@.len() == i,
                forall|j: int| 0 <= j < i ==> #[trigger] objects@[j].0@ == self.objects@[j].0@ && objects@[j].1@ == self.objects@[j].1@ && objects@[j].1.wf(),
            decreases self.objects.len() - i,
        {
            assert(self.objects@[i as int].1.wf());
            objects.push((self.objects[i].0.clone(), self.objects[i].1.duplicate()));
            i = i + 1;
        }
        let r = Node { links, objects };
        assert(link_models(r.links@) =~= link_models(self.links@));
        assert(object_models(r.objects@) =~= object_models(self.objects@));
        assert(names_sorted(r.links@)) by {
            assert forall|a: int, b: int| 0 <= a < b < r.links@.len() implies text_lt(#[trigger] r.links@[a].0@, #[trigger] r.links@[b].0@) by {
                assert(text_lt(self.links@[a].0@, self.links@[b].0@));
            }
        }
        assert(forall|j: int| 0 <= j < r.links@.len() ==> #[trigger] r.links@[j].0@ == self.links@[j].0@);
        assert(forall|j: int| 0 <= j < r.objects@.len() ==> #[trigger] r.objects@[j].0@ == self.objects@[j].0@);
        assert(forall|j: int| 0 <= j < r.links@.len() ==> #[trigger] r.links@[j].0@ != metadata_key()) by {
            assert forall|j: int| 0 <= j < r.links@.len() implies #[trigger] r.links@[j].0@ != metadata_key() by {
                assert(self.links@[j].0@ != metadata_key());
            }
        }
        assert(forall|j: int| 0 <= j < r.objects@.len() ==> #[trigger] r.objects@[j].0@ != metadata_key()) by {
            assert forall|j: int| 0 <= j < r.objects@.len() implies #[trigger] r.objects@[j].0@ != metadata_key() by {
                assert(self.objects@[j].0@ != metadata_key());
            }
        }
        assert forall|j: int| 0 <= j < r.objects@.len() implies (#[trigger] r.objects@[j]).1.wf() by {
            assert(r.objects@[j].0@ == self.objects@[j].0@);
        }
        assert(keys_unique(object_models(r.objects@)));
        r
    }

    /// Writes a link under `name` (a file's data or a subdirectory).
    pub fn put_link(&mut self, name: &str, link: &Cid)
        requires
            old(self).wf(),
            name@ != metadata_key(),
        ensures
            final(self).wf(),
            final(self)@.links == old(self)@.links.insert(name@, link@),
            final(self)@.objects == old(self)@.objects,
    {
        let key = name.to_owned();
        let ghost s = self.links@;
        proof {
            lemma_sorted_unique(s);
        }
        let mut i: usize = 0;
        while i < self.links.len() && text_less(self.links[i].0.as_str(), name)
            invariant
                self.links@ == s,
                i <= s.len(),
                forall|j: int| 0 <= j < i ==> text_lt(#[trigger] s[j].0@, name@),
            decreases s.len() - i,
        {
            i = i + 1;
        }
        if i < self.links.len() && self.links[i].0 == key {
            proof {
                lemma_to_map_update(link_models(s), i as int, link@);
            }
            self.links.set(i, (key, link.duplicate()));
            assert(link_models(self.links@) =~= link_models(s).update(i as int, (name@, link@)));
            assert(names_sorted(self.links@)) by {
                assert forall|a: int, b: int| 0 <= a < b < self.links@.len() implies text_lt(#[trigger] self.links@[a].0@, #[trigger] self.links@[b].0@) by {
                    assert(text_lt(s[a].0@, s[b].0@));
                }
            }
        } else {
            proof {
                if i < s.len() {
                    lemma_text_lt_total(s[i as int].0@, name@);
                }
                lemma_to_map_facts(link_models(s));
                assert forall|j: int| 0 <= j < s.len() implies s[j].0@ != name@ by {
                    if j < i {
                        assert(text_lt(s[j].0@, name@));
                        lemma_text_lt_irreflexive(name@);
                    } else if j > i {
                        assert(text_lt(s[i as int].0@, s[j].0@));
                        lemma_text_lt_asymmetric(name@, s[i as int].0@);
                        if s[j].0@ == name@ {
                            lemma_text_lt_asymmetric(s[i as int].0@, name@);
                        }
                    }
                }
                assert(!to_map(link_models(s)).contains_key(name@)) by {
                    if to_map(link_models(s)).contains_key(name@) {
                        let j = choose|j: int| 0 <= j < link_models(s).len() && link_models(s)[j].0 == name@;
                        assert(s[j].0@ == name@);
                    }
                }
                lemma_to_map_insert_at(link_models(s), i as int, name@, link@);
            }
            self.links.insert(i, (key, link.duplicate()));
            assert(link_models(self.links@) =~= link_models(s).insert(i as int, (name@, link@)));
            assert(names_sorted(self.links@)) by {
                let t = self.links@;
                assert forall|a: int, b: int| 0 <= a < b < t.len() implies text_lt(#[trigger] t[a].0@, #[trigger] t[b].0@) by {
                    if b < i {
                        assert(text_lt(s[a].0@, s[b].0@));
                    } else if b == i {
                        assert(text_lt(s[a].0@, name@));
                    } else if a == i {
                        assert(text_lt(name@, s[i as int].0@));
                        if b - 1 > i {
                            assert(text_lt(s[i as int].0@, s[b - 1].0@));
                            lemma_text_lt_transitive(name@, s[i as int].0@, s[b - 1].0@);
                        }
                    } else if a < i {
                        assert(text_lt(s[a].0@, s[b - 1].0@));
                    } else {
                        assert(text_lt(s[a - 1].0@, s[b - 1].0@));
                    }
                }
            }
        }
        assert(forall|j: int| 0 <= j < self.links@.len() ==> #[trigger] self.links@[j].0@ != metadata_key());
    }

    fn find_object(&self, name: &String) -> (r: Option<usize>)
        ensures
            match r {
                Some(i) => i < self.objects.len() && self.objects@[i as int].0@ == name@,
                None => forall|i: int| 0 <= i < self.objects.len() ==> self.objects@[i].0@ != name@,
            },
    {
        let mut i: usize = 0;
        while i < self.objects.len()
            invariant
                i <= self.objects.len(),
                forall|j: int| 0 <= j < i ==> self.objects@[j].0@ != name@,
            decreases self.objects.len() - i,
        {
            if self.objects[i].0 == *name {
                return Some(i);
            }
            i = i + 1;
        }
        None
    }

    fn find_link(&self, name: &String) -> (r: Option<usize>)
        ensures
            match r {
                Some(i) => i < self.links.len() && self.links@[i as int].0@ == name@,
                None => forall|i: int| 0 <= i < self.links.len() ==> self.links@[i].0@ != name@,
            },
    {
        let mut i: usize = 0;
        while i < self.links.len()
            invariant
                i <= self.links.len(),
                forall|j: int| 0 <= j < i ==> self.links@[j].0@ != name@,
            decreases self.links.len() - i,
        {
            if self.links[i].0 == *name {
                return Some(i);
            }
            i = i + 1;
        }
        None
    }

    /// Merges metadata into the object of `name`, creating the object if absent.
    pub fn put_object(&mut self, name: &str, maybe_metadata: Option<&Object>)
        requires
            old(self).wf(),
            name@ != metadata_key(),
            maybe_metadata matches Some(m) ==> m.wf(),
        ensures
            final(self).wf(),
            final(self)@.links == old(self)@.links,
            final(self)@.objects == old(self)@.objects.insert(
                name@,
                merged_object(old(self)@.objects, name@, match maybe_metadata { Some(m) => Some(m@), None => None }),
            ),
    {
        let key = name.to_owned();
        let ghost s = self.objects@;
        let ghost mm: Option<Map<Seq<char>, Ipld>> = match maybe_metadata { Some(m) => Some(m@), None => None };
        proof {
            lemma_to_map_facts(object_models(s));
        }
        match self.find_object(&key) {
            Some(i) => {
                assert(s[i as int].1.wf());
                let mut object = self.objects[i].1.duplicate();
                object.update(maybe_metadata);
                assert(object_models(s)[i as int].0 == name@);
                let ghost ov = object@;
                proof {
                    lemma_to_map_update(object_models(s), i as int, ov);
                }
                self.objects.set(i, (key, object));
                assert(object_models(self.objects@) =~= object_models(s).update(i as int, (name@, ov)));
            },
            None => {
                let object = Object::new(maybe_metadata);
                let ghost ov = object@;
                proof {
                    assert(!to_map(object_models(s)).contains_key(name@)) by {
                        if to_map(object_models(s)).contains_key(name@) {
                            let j = choose|j: int| 0 <= j < object_models(s).len() && object_models(s)[j].0 == name@;
                            assert(s[j].0@ == name@);
                        }
                    }
                    lemma_to_map_push(object_models(s), name@, ov);
                    if maybe_metadata is Some {
                        assert(Map::<Seq<char>, Ipld>::empty().union_prefer_right(maybe_metadata.unwrap()@) =~= maybe_metadata.unwrap()@);
                    }
                }
                self.objects.push((key, object));
                assert(object_models(self.objects@) =~= object_models(s).push((name@, ov)));
            },
        }
        assert(forall|j: int| 0 <= j < self.objects@.len() ==> (#[trigger] self.objects@[j]).1.wf());
        assert(forall|j: int| 0 <= j < self.objects@.len() ==> #[trigger] self.objects@[j].0@ != metadata_key());
    }

    /// Writes an entry: its link if one is given, and merges the metadata either way.
    pub fn update_link(&mut self, name: &str, maybe_link: Option<&Cid>, maybe_metadata: Option<&Object>)
        requires
            old(self).wf(),
            name@ != metadata_key(),
            maybe_metadata matches Some(m) ==> m.wf(),
        ensures
            final(self).wf(),
            final(self)@.links == match maybe_link {
                Some(l) => old(self)@.links.insert(name@, l@),
                None => old(self)@.links,
            },
            final(self)@.objects == old(self)@.objects.insert(
                name@,
                merged_object(old(self)@.objects, name@, match maybe_metadata { Some(m) => Some(m@), None => None }),
            ),
    {
        match maybe_link {
            Some(link) => self.put_link(name, link),
            None => {},
        }
        self.put_object(name, maybe_metadata);
    }

    /// Removes the entry `name`: its link and its metadata. Returns the link
    /// and the metadata that were there.
    pub fn del(&mut self, name: &str) -> (r: (Option<Cid>, Option<Object>))
        requires
            old(self).wf(),
        ensures
            final(self).wf(),
            final(self)@.links == old(self)@.links.remove(name@),
            final(self)@.objects == if old(self)@.links.contains_key(name@) {
                old(self)@.objects.remove(name@)
            } else {
                old(self)@.objects
            },
            match r.0 {
                Some(c) => old(self)@.links.contains_key(name@) && c@ == old(self)@.links[name@],
                None => !old(self)@.links.contains_key(name@),
            },
            match r.1 {
                Some(o) => o.wf() && old(self)@.links.contains_key(name@) && old(self)@.objects.contains_key(name@)
                    && o@ == old(self)@.objects[name@],
                None => !(old(self)@.links.contains_key(name@) && old(self)@.objects.contains_key(name@)),
            },
    {
        let key = name.to_owned();
        let ghost ls = self.links@;
        let ghost os = self.objects@;
        proof {
            lemma_sorted_unique(ls);
            lemma_to_map_facts(link_models(ls));
            lemma_to_map_facts(object_models(os));
        }
        let found = self.find_link(&key);
        let i: usize = match found {
            Some(i) => i,
            None => self.links.len(),
        };
        let link = if i < self.links.len() {
            proof {
                lemma_to_map_remove(link_models(ls), i as int);
            }
            let (_, c) = self.links.remove(i);
            assert(link_models(self.links@) =~= link_models(ls).remove(i as int));
            assert(link_models(ls)[i as int].0 == name@);
            assert(names_sorted(self.links@)) by {
                let t = self.links@;
                assert forall|a: int, b: int| 0 <= a < b < t.len() implies text_lt(#[trigger] t[a].0@, #[trigger] t[b].0@) by {
                    let a2 = if a < i { a } else { a + 1 };
                    let b2 = if b < i { b } else { b + 1 };
                    assert(t[a] == ls[a2] && t[b] == ls[b2]);
                    assert(text_lt(ls[a2].0@, ls[b2].0@));
                }
            }
            assert forall|j: int| 0 <= j < self.links@.len() implies #[trigger] self.links@[j].0@ != metadata_key() by {
                let j2 = if j < i { j } else { j + 1 };
                assert(self.links@[j] == ls[j2]);
            }
            Some(c)
        } else {
            assert(!to_map(link_models(ls)).contains_key(name@)) by {
                if to_map(link_models(ls)).contains_key(name@) {
                    let j = choose|j: int| 0 <= j < link_models(ls).len() && link_models(ls)[j].0 == name@;
                    assert(ls[j].0@ == name@);
                }
            }
            assert(to_map(link_models(ls)).remove(name@) =~= to_map(link_models(ls)));
            return (None, None);
        };
        let object = match self.find_object(&key) {
            Some(k) => {
                proof {
                    lemma_to_map_remove(object_models(os), k as int);
                }
                assert(os[k as int].1.wf());
                let (_, o) = self.objects.remove(k);
                assert(object_models(self.objects@) =~= object_models(os).remove(k as int));
                assert(object_models(os)[k as int].0 == name@);
                assert forall|j: int| 0 <= j < self.objects@.len() implies (#[trigger] self.objects@[j]).1.wf() && self.objects@[j].0@ != metadata_key() by {
                    let j2 = if j < k { j } else { j + 1 };
                    assert(self.objects@[j] == os[j2]);
                }
                Some(o)
            },
            None => {
                assert(self.objects@ == os);
                assert(!to_map(object_models(os)).contains_key(name@)) by {
                    if to_map(object_models(os)).contains_key(name@) {
                        let j = choose|j: int| 0 <= j < object_models(os).len() && object_models(os)[j].0 == name@;
                        assert(os[j].0@ == name@);
                    }
                }
                assert(to_map(object_models(os)).remove(name@) =~= to_map(object_models(os)));
                None
            },
        };
        (link, object)
    }

    /// The link of `name`, without its metadata.
    pub fn get_link(&self, name: &str) -> (r: Option<Cid>)
        requires
            self.wf(),
        ensures
            match r {
                Some(c) => self@.links.contains_key(name@) && c@ == self@.links[name@],
                None => !self@.links.contains_key(name@),
            },
    {
        let key = name.to_owned();
        proof {
            lemma_sorted_unique(self.links@);
            lemma_to_map_facts(link_models(self.links@));
        }
        if let Some(i) = self.find_link(&key) {
            assert(link_models(self.links@)[i as int].0 == name@);
            return Some(self.links[i].1.duplicate());
        }
        assert(!to_map(link_models(self.links@)).contains_key(name@)) by {
            if to_map(link_models(self.links@)).contains_key(name@) {
                let j = choose|j: int| 0 <= j < link_models(self.links@).len() && link_models(self.links@)[j].0 == name@;
                assert(self.links@[j].0@ == name@);
            }
        }
        None
    }

    /// All links of this node, in name order.
    pub fn get_links(&self) -> (r: Vec<(String, Cid)>)
        requires
            self.wf(),
        ensures
            names_sorted(r@),
            keys_unique(link_models(r@)),
            to_map(link_models(r@)) == self@.links,
            forall|i: int| 0 <= i < r@.len() ==> (#[trigger] r@[i]).0@ != metadata_key(),
    {
        let d = self.duplicate();
        proof {
            lemma_sorted_unique(d.links@);
        }
        d.links
    }

    /// The number of entries, not counting the metadata sidecar.
    pub fn size(&self) -> (r: usize)
        requires
            self.wf(),
        ensures
            r == self@.links.len(),
            self@.links.dom().finite(),
    {
        proof {
            lemma_sorted_unique(self.links@);
            lemma_to_map_len(link_models(self.links@));
        }
        self.links.len()
    }

    /// The metadata attached to `name`, if any.
    pub fn get_object(&self, name: &str) -> (r: Option<Object>)
        requires
            self.wf(),
        ensures
            match r {
                Some(o) => o.wf() && self@.objects.contains_key(name@) && o@ == self@.objects[name@],
                None => !self@.objects.contains_key(name@),
            },
    {
        let key = name.to_owned();
        proof {
            lemma_to_map_facts(object_models(self.objects@));
        }
        match self.find_object(&key) {
            Some(i) => {
                assert(object_models(self.objects@)[i as int].0 == name@);
                assert(self.objects@[i as int].1.wf());
                Some(self.objects[i].1.duplicate())
            },
            None => {
                assert(!to_map(object_models(self.objects@)).contains_key(name@)) by {
                    if to_map(object_models(self.objects@)).contains_key(name@) {
                        let j = choose|j: int| 0 <= j < object_models(self.objects@).len() && object_models(self.objects@)[j].0 == name@;
                        assert(self.objects@[j].0@ == name@);
                    }
                }
                None
            },
        }
    }

    /// All metadata objects of this node, by entry name.
    pub fn get_objects(&self) -> (r: Vec<(String, Object)>)
        requires
            self.wf(),
        ensures
            keys_unique(object_models(r@)),
            to_map(object_models(r@)) == self@.objects,
            forall|i: int| 0 <= i < r@.len() ==> (#[trigger] r@[i]).1.wf(),
    {
        let d = self.duplicate();
        d.objects
    }
}

impl Default for Node {
    fn default() -> (r: Node)
        ensures
            r.wf(),
            r@.links == Map::<Seq<char>, Seq<u8>>::empty(),
            r@.objects == Map::<Seq<char>, Map<Seq<char>, Ipld>>::empty(),
    {
        Node::new()
    }
}

/// The record a node is written as: each link under its name, and the
/// metadata map under the reserved name.
pub open spec fn node_record(n: NodeModel) -> Map<Seq<char>, FieldModel> {
    Map::new(
        |k: Seq<char>| n.links.contains_key(k) || k == metadata_key(),
        |k: Seq<char>| if k == metadata_key() { FieldModel::Meta(n.objects) } else { FieldModel::Link(n.links[k]) },
    )
}

/// The encoded block of a node and its CID.
pub open spec fn node_block_of(n: NodeModel) -> Option<(Seq<u8>, Seq<u8>)> {
    record_block_of(node_record(n))
}

/// A record describes a node when every name but the reserved one holds a
/// link, and the reserved one (if present) holds metadata maps under other names.
pub open spec fn record_is_node(r: Map<Seq<char>, FieldModel>) -> bool {
    forall|k: Seq<char>| #[trigger] r.contains_key(k) ==> if k == metadata_key() {
        r[k] is Meta && !r[k]->Meta_0.contains_key(metadata_key())
    } else {
        r[k] is Link
    }
}

/// The node that a record describes.
pub open spec fn record_node(r: Map<Seq<char>, FieldModel>) -> NodeModel {
    NodeModel {
        links: Map::new(|k: Seq<char>| r.contains_key(k) && k != metadata_key(), |k: Seq<char>| r[k]->Link_0),
        objects: if r.contains_key(metadata_key()) { r[metadata_key()]->Meta_0 } else { Map::empty() },
    }
}

pub open spec fn node_record_step(n: NodeModel, k: Seq<char>, f: FieldModel) -> NodeModel {
    if k == metadata_key() {
        NodeModel { links: n.links, objects: f->Meta_0 }
    } else {
        NodeModel { links: n.links.insert(k, f->Link_0), objects: n.objects }
    }
}

impl Node {
    /// Replaces the metadata of `name` by `object`.
    fn set_object(&mut self, name: &str, object: Object)
        requires
            old(self).wf(),
            object.wf(),
            name@ != metadata_key(),
        ensures
            final(self).wf(),
            final(self)@.links == old(self)@.links,
            final(self)@.objects == old(self)@.objects.insert(name@, object@),
    {
        let key = name.to_owned();
        let ghost s = self.objects@;
        let ghost ov = object@;
        proof {
            lemma_to_map_facts(object_models(s));
        }
        match self.find_object(&key) {
            Some(i) => {
                proof {
                    lemma_to_map_update(object_models(s), i as int, ov);
                }
                self.objects.set(i, (key, object));
                assert(object_models(self.objects@) =~= object_models(s).update(i as int, (name@, ov)));
            },
            None => {
                proof {
                    assert(!to_map(object_models(s)).contains_key(name@)) by {
                        if to_map(object_models(s)).contains_key(name@) {
                            let j = choose|j: int| 0 <= j < object_models(s).len() && object_models(s)[j].0 == name@;
                            assert(s[j].0@ == name@);
                        }
                    }
                    lemma_to_map_push(object_models(s), name@, ov);
                }
                self.objects.push((key, object));
                assert(object_models(self.objects@) =~= object_models(s).push((name@, ov)));
            },
        }
        assert(forall|j: int| 0 <= j < self.objects@.len() ==> (#[trigger] self.objects@[j]).1.wf());
        assert(forall|j: int| 0 <= j < self.objects@.len() ==> #[trigger] self.objects@[j].0@ != metadata_key());
    }

    /// The record this node is written as.
    pub fn to_record(&self) -> (r: Record)
        requires
            self.wf(),
        ensures
            r@ == node_record(self@),
            keys_unique(field_models(r.fields@)),
    {
        let ghost lm = link_models(self.links@);
        let mut fields: Vec<(String, Field)> = Vec::new();
        let mut i: usize = 0;
        while i < self.links.len()
            invariant
                self.wf(),
                lm == link_models(self.links@),
                i <= self.links.len(),
                fields@.len() == i,
                forall|j: int| 0 <= j < i ==> (#[trigger] field_models(fields@)[j]) == (lm[j].0, FieldModel::Link(lm[j].1)),
            decreases self.links.len() - i,
        {
            let ghost before = fields@;
            fields.push((self.links[i].0.clone(), Field::Link(self.links[i].1.duplicate())));
            proof {
                assert forall|j: int| 0 <= j < i + 1 implies (#[trigger] field_models(fields@)[j]) == (lm[j].0, FieldModel::Link(lm[j].1)) by {
                    if j < i {
                        assert(fields@[j] == before[j]);
                        assert(field_models(fields@)[j] == field_models(before)[j]);
                    } else {
                        assert(lm[j] == (self.links@[j].0@, self.links@[j].1@));
                    }
                }
            }
            i = i + 1;
        }
        let mut meta: Vec<(String, Vec<(String, Ipld)>)> = Vec::new();
        let mut j: usize = 0;
        while j < self.objects.len()
            invariant
                self.wf(),
                j <= self.objects.len(),
                meta@.len() == j,
                forall|x: int| 0 <= x < j ==> (#[trigger] meta_models(meta@)[x]) == object_models(self.objects@)[x],
            decreases self.objects.len() - j,
        {
            let ghost before = meta@;
            assert(self.objects@[j as int].1.wf());
            meta.push((self.objects[j].0.clone(), self.objects[j].1.entries()));
            assert(meta_models(meta@)[j as int] == (self.objects@[j as int].0@, self.objects@[j as int].1@));
            proof {
                assert forall|x: int| 0 <= x < j + 1 implies (#[trigger] meta_models(meta@)[x]) == object_models(self.objects@)[x] by {
                    if x < j {
                        assert(meta@[x] == before[x]);
                        assert(meta_models(meta@)[x] == meta_models(before)[x]);
                    }
                }
            }
            j = j + 1;
        }
        assert(meta_models(meta@) =~= object_models(self.objects@));
        let ghost links_part = field_models(fields@);
        fields.push((METADATA_KEY.to_owned(), Field::Meta(meta)));
        proof {
            reveal_strlit(".metadata");
            assert(METADATA_KEY@ =~= metadata_key());
            let fm = field_models(fields@);
            assert(fm.drop_last() =~= links_part);
            assert(fm.last() == (metadata_key(), FieldModel::Meta(self@.objects)));
            lemma_sorted_unique(self.links@);
            lemma_to_map_facts(lm);
            lemma_to_map_keys(links_part);
            assert forall|k: Seq<char>| #[trigger] to_map(links_part).contains_key(k) <==> self@.links.contains_key(k) by {
                if to_map(links_part).contains_key(k) {
                    let a = choose|a: int| 0 <= a < links_part.len() && links_part[a].0 == k;
                    assert(links_part[a].0 == lm[a].0);
                }
                if self@.links.contains_key(k) {
                    let a = choose|a: int| 0 <= a < lm.len() && lm[a].0 == k;
                    assert(links_part[a].0 == k);
                }
            }
            assert(keys_unique(links_part)) by {
                assert forall|a: int, b: int| 0 <= a < links_part.len() && 0 <= b < links_part.len() && a != b implies links_part[a].0 != links_part[b].0 by {
                    assert(links_part[a].0 == lm[a].0 && links_part[b].0 == lm[b].0);
                }
            }
            lemma_to_map_facts(links_part);
            assert forall|k: Seq<char>| #[trigger] self@.links.contains_key(k) implies to_map(links_part)[k] == FieldModel::Link(self@.links[k]) by {
                let a = choose|a: int| 0 <= a < lm.len() && lm[a].0 == k;
                assert(links_part[a] == (lm[a].0, FieldModel::Link(lm[a].1)));
            }
            assert(!self@.links.contains_key(metadata_key())) by {
                if self@.links.contains_key(metadata_key()) {
                    let a = choose|a: int| 0 <= a < lm.len() && lm[a].0 == metadata_key();
                    assert(self.links@[a].0@ != metadata_key());
                }
            }
            assert(to_map(fm) =~= node_record(self@));
            assert(keys_unique(fm)) by {
                assert forall|a: int, b: int| 0 <= a < fm.len() && 0 <= b < fm.len() && a != b implies fm[a].0 != fm[b].0 by {
                    if a < links_part.len() && b < links_part.len() {
                        assert(fm[a] == links_part[a] && fm[b] == links_part[b]);
                    } else if a < links_part.len() {
                        assert(fm[a] == links_part[a]);
                        assert(self.links@[a].0@ != metadata_key());
                    } else if b < links_part.len() {
                        assert(fm[b] == links_part[b]);
                        assert(self.links@[b].0@ != metadata_key());
                    }
                }
            }
        }
        Record { fields }
    }

    /// The node that a record describes; `None` where two fields share a name
    /// or the record does not describe a node.
    pub fn from_record(rec: &Record) -> (r: Option<Node>)
        ensures
            match r {
                Some(n) => n.wf() && keys_unique(field_models(rec.fields@)) && record_is_node(rec@) && n@ == record_node(rec@),
                None => !(keys_unique(field_models(rec.fields@)) && record_is_node(rec@)),
            },
    {
        if !rec.names_distinct() {
            return None;
        }
        let ghost fm = field_models(rec.fields@);
        proof {
            lemma_to_map_facts(fm);
        }
        let mut node = Node::new();
        let mut i: usize = 0;
        assert(fm.subrange(0, 0) =~= Seq::<(Seq<char>, FieldModel)>::empty());
        assert(to_map(fm.subrange(0, 0)) =~= Map::<Seq<char>, FieldModel>::empty());
        assert(node@.links =~= record_node(to_map(fm.subrange(0, 0))).links);
        assert(node@.objects =~= record_node(to_map(fm.subrange(0, 0))).objects);
        while i < rec.fields.len()
            invariant
                fm == field_models(rec.fields@),
                keys_unique(fm),
                node.wf(),
                i <= rec.fields.len(),
                record_is_node(to_map(fm.subrange(0, i as int))),
                node@ == record_node(to_map(fm.subrange(0, i as int))),
            decreases rec.fields.len() - i,
        {
            let ghost pre = to_map(fm.subrange(0, i as int));
            let ghost k = fm[i as int].0;
            let ghost f = fm[i as int].1;
            proof {
                lemma_to_map_facts(fm);
                assert(fm.subrange(0, i + 1).drop_last() =~= fm.subrange(0, i as int));
                assert(to_map(fm.subrange(0, i + 1)) == pre.insert(k, f));
                lemma_to_map_keys(fm.subrange(0, i as int));
                assert(!pre.contains_key(k)) by {
                    if pre.contains_key(k) {
                        let a = choose|a: int| 0 <= a < i && fm.subrange(0, i as int)[a].0 == k;
                        assert(fm[a].0 == fm[i as int].0);
                    }
                }
                assert(rec@.contains_key(k) && rec@[k] == f);
            }
            let name = &rec.fields[i].0;
            if crate::text::is_reserved_name(name.as_str()) {
                let entries = match &rec.fields[i].1 {
                    Field::Meta(m) => m,
                    _ => return None,
                };
                let ghost mm = meta_models(entries@);
                assert(f == FieldModel::Meta(to_map(mm)));
                assert(k == metadata_key());
                proof {
                    assert(pre.insert(k, f).remove(k) =~= pre);
                    assert(node@.objects == Map::<Seq<char>, Map<Seq<char>, Ipld>>::empty());
                }
                let mut j: usize = 0;
                assert(mm.subrange(0, 0) =~= Seq::<(Seq<char>, Map<Seq<char>, Ipld>)>::empty());
                while j < entries.len()
                    invariant
                        mm == meta_models(entries@),
                        node.wf(),
                        j <= entries.len(),
                        node@.links == record_node(pre).links,
                        node@.objects == to_map(mm.subrange(0, j as int)),
                        forall|x: int| 0 <= x < j ==> mm[x].0 != metadata_key(),
                        keys_unique(fm),
                        rec@.contains_key(metadata_key()),
                        rec@[metadata_key()] == FieldModel::Meta(to_map(mm)),
                    decreases entries.len() - j,
                {
                    let entry_name = &entries[j].0;
                    if crate::text::is_reserved_name(entry_name.as_str()) {
                        proof {
                            lemma_to_map_keys(mm);
                            assert(mm[j as int].0 == metadata_key());
                            assert(to_map(mm).contains_key(metadata_key()));
                            assert(!record_is_node(rec@)) by {
                                assert(rec@.contains_key(metadata_key()));
                            }
                        }
                        return None;
                    }
                    let object = Object::from_entries(&entries[j].1);
                    node.set_object(entry_name.as_str(), object);
                    proof {
                        assert(mm.subrange(0, j + 1).drop_last() =~= mm.subrange(0, j as int));
                        assert(mm.subrange(0, j + 1).last() == mm[j as int]);
                    }
                    j = j + 1;
                }
                proof {
                    assert(mm.subrange(0, j as int) =~= mm);
                    lemma_to_map_keys(mm);
                    assert(!to_map(mm).contains_key(metadata_key())) by {
                        if to_map(mm).contains_key(metadata_key()) {
                            let x = choose|x: int| 0 <= x < mm.len() && mm[x].0 == metadata_key();
                        }
                    }
                    assert(node@.links =~= record_node(pre.insert(k, f)).links);
                    assert(node@.objects =~= record_node(pre.insert(k, f)).objects);
                }
            } else {
                match &rec.fields[i].1 {
                    Field::Link(c) => {
                        node.put_link(name.as_str(), c);
                        proof {
                            assert(node@.links =~= record_node(pre.insert(k, f)).links);
                            assert(node@.objects =~= record_node(pre.insert(k, f)).objects);
                        }
                    },
                    _ => return None,
                }
            }
            i = i + 1;
        }
        assert(fm.subrange(0, i as int) =~= fm);
        Some(node)
    }

    /// The CID of this node's encoded block, or `None` where it cannot be encoded.
    pub fn block_cid(&self) -> (r: Option<Cid>)
        requires
            self.wf(),
        ensures
            match r {
                Some(c) => node_block_of(self@) matches Some(b) && b.0 == c@ && is_dag_cbor_cid(c@),
                None => node_block_of(self@) is None,
            },
            self@.links == Map::<Seq<char>, Seq<u8>>::empty() && self@.objects == Map::<Seq<char>, Map<Seq<char>, Ipld>>::empty() ==> r is Some,
    {
        proof {
            if self@.links == Map::<Seq<char>, Seq<u8>>::empty() && self@.objects == Map::<Seq<char>, Map<Seq<char>, Ipld>>::empty() {
                assert(node_record(self@) =~= empty_node_record());
            }
        }
        match self.to_record().encode() {
            Some((c, _)) => Some(c),
            None => None,
        }
    }

    /// The encoded block of this node: its CID and its bytes. A node whose
    /// links are block links and whose metadata is empty decodes back to itself.
    pub fn encode(&self) -> (r: Option<(Cid, Vec<u8>)>)
        requires
            self.wf(),
        ensures
            match r {
                Some((c, d)) => node_block_of(self@) == Some((c@, d@)) && is_dag_cbor_cid(c@),
                None => node_block_of(self@) is None,
            },
            r is Some && (forall|k: Seq<char>| #[trigger] self@.links.contains_key(k) ==> is_block_link(self@.links[k]))
                && (forall|k: Seq<char>| #[trigger] self@.objects.contains_key(k) ==> self@.objects[k] == Map::<Seq<char>, Ipld>::empty())
                ==> well_sized(r->Some_0.1@) && decoded_record_of(r->Some_0.1@) == Some(node_record(self@)),
    {
        let rec = self.to_record();
        assert((forall|k: Seq<char>| #[trigger] self@.links.contains_key(k) ==> is_block_link(self@.links[k]))
            && (forall|k: Seq<char>| #[trigger] self@.objects.contains_key(k) ==> self@.objects[k] == Map::<Seq<char>, Ipld>::empty())
            ==> is_simple_record(rec@));
        rec.encode()
    }

    /// The node a block holds; `None` where it is not a well-sized block of a node.
    pub fn decode(bytes: &Vec<u8>) -> (r: Option<Node>)
        ensures
            r is Some ==> r->Some_0.wf() && well_sized(bytes@) && decoded_record_of(bytes@) is Some
                && record_is_node(decoded_record_of(bytes@).unwrap()) && r->Some_0@ == record_node(decoded_record_of(bytes@).unwrap()),
            r is None ==> !(well_sized(bytes@) && decoded_record_of(bytes@) is Some
                && record_is_node(decoded_record_of(bytes@).unwrap())),
    {
        if !is_well_sized(bytes) {
            return None;
        }
        match Record::decode(bytes) {
            Some(rec) => Node::from_record(&rec),
            None => None,
        }
    }
}

} // verus!
