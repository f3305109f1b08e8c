//! The local block cache: nodes written or fetched but not yet pushed, by CID.
use vstd::prelude::*;
use crate::assoc::{keys_unique, to_map, lemma_to_map_facts, lemma_to_map_keys, lemma_to_map_push, lemma_to_map_update, lemma_to_map_len};
use crate::cid::{Cid, bytes_equal, is_dag_cbor_cid};
use crate::node::{Node, NodeModel, node_block_of};

verus! {

pub open spec fn cache_models(s: Seq<(Cid, Node)>) -> Seq<(Seq<u8>, NodeModel)> {
    s.map_values(|e: (Cid, Node)| (e.0@, e.1@))
}

/// The CID that a node is stored under once written: that of its encoded block.
pub open spec fn stored_cid(n: NodeModel) -> Option<Seq<u8>> {
    match node_block_of(n) {
        Some(b) => Some(b.0),
        None => None,
    }
}

/// A mapping from CID to node. Entries are never evicted. It is kept as a
/// list of pairs with distinct CIDs: vstd specifies hashed and ordered maps
/// only for keys whose equality it models, and a CID here is a byte vector.
#[derive(Debug, Clone)]
pub struct BlockCache {
    entries: Vec<(Cid, Node)>,
}

impl View for BlockCache {
    type V = Map<Seq<u8>, NodeModel>;

    closed spec fn view(&self) -> Map<Seq<u8>, NodeModel> {
        to_map(cache_models(self.entries@))
    }
}

impl BlockCache {
    pub closed spec fn wf(&self) -> bool {
        &&& keys_unique(cache_models(self.entries@))
        &&& forall|i: int| 0 <= i < self.entries@.len() ==> (#[trigger] self.entries@[i]).1.wf()
    }

    /// An empty cache.
    pub fn new() -> (r: BlockCache)
        ensures
            r.wf(),
            r@ == Map::<Seq<u8>, NodeModel>::empty(),
    {
        let r = BlockCache { entries: Vec::new() };
        assert(cache_models(r.entries@) =~= Seq::empty());
        r
    }

    fn find(&self, cid: &Cid) -> (r: Option<usize>)
        ensures
            match r {
                Some(i) => i < self.entries.len() && self.entries@[i as int].0@ == cid@,
                None => forall|i: int| 0 <= i < self.entries.len() ==> self.entries@[i].0@ != cid@,
            },
    {
        let mut i: usize = 0;
        while i < self.entries.len()
            invariant
                i <= self.entries.len(),
                forall|j: int| 0 <= j < i ==> self.entries@[j].0@ != cid@,
            decreases self.entries.len() - i,
        {
            if bytes_equal(&self.entries[i].0.bytes, &cid.bytes) {
                return Some(i);
            }
            i = i + 1;
        }
        None
    }

    /// The node stored under `cid`, if any.
    pub fn get(&self, cid: &Cid) -> (r: Option<Node>)
        requires
            self.wf(),
        ensures
            match r {
                Some(n) => n.wf() && self@.contains_key(cid@) && n@ == self@[cid@],
                None => !self@.contains_key(cid@),
            },
    {
        proof {
            lemma_to_map_facts(cache_models(self.entries@));
        }
        match self.find(cid) {
            Some(i) => {
                assert(cache_models(self.entries@)[i as int].0 == cid@);
                assert(self.entries@[i as int].1.wf());
                Some(self.entries[i].1.duplicate())
            },
            None => {
                assert(!self@.contains_key(cid@)) by {
                    if self@.contains_key(cid@) {
                        let j = choose|j: int| 0 <= j < cache_models(self.entries@).len() && cache_models(self.entries@)[j].0 == cid@;
                        assert(self.entries@[j].0@ == cid@);
                    }
                }
                None
            },
        }
    }

    /// Stores `node` under `cid`, replacing what was there.
    pub fn insert(&mut self, cid: Cid, node: Node)
        requires
            old(self).wf(),
            node.wf(),
        ensures
            final(self).wf(),
            final(self)@ == old(self)@.insert(cid@, node@),
    {
        let ghost k = cid@;
        let ghost v = node@;
        let ghost s = self.entries@;
        proof {
            lemma_to_map_keys(cache_models(s));
        }
        match self.find(&cid) {
            Some(i) => {
                proof {
                    lemma_to_map_update(cache_models(s), i as int, v);
                }
                self.entries.set(i, (cid, node));
                assert(cache_models(self.entries@) =~= cache_models(s).update(i as int, (k, v)));
            },
            None => {
                proof {
                    assert(!to_map(cache_models(s)).contains_key(k)) by {
                        if to_map(cache_models(s)).contains_key(k) {
                            let j = choose|j: int| 0 <= j < cache_models(s).len() && cache_models(s)[j].0 == k;
                            assert(s[j].0@ == k);
                        }
                    }
                    lemma_to_map_push(cache_models(s), k, v);
                }
                self.entries.push((cid, node));
                assert(cache_models(self.entries@) =~= cache_models(s).push((k, v)));
            },
        }
        assert forall|j: int| 0 <= j < self.entries@.len() implies (#[trigger] self.entries@[j]).1.wf() by {
            if j < s.len() && self.entries@[j] != s[j] {
            }
        }
    }

    /// Encodes `node` and stores it under its CID, which is returned; `None`
    /// (and no change) where the node cannot be encoded.
    pub fn put(&mut self, node: Node) -> (r: Option<Cid>)
        requires
            old(self).wf(),
            node.wf(),
        ensures
            final(self).wf(),
            match r {
                Some(c) => stored_cid(node@) == Some(c@) && is_dag_cbor_cid(c@)
                    && final(self)@ == old(self)@.insert(c@, node@),
                None => stored_cid(node@) is None && final(self)@ == old(self)@,
            },
            node@.links == Map::<Seq<char>, Seq<u8>>::empty() && node@.objects == Map::<Seq<char>, Map<Seq<char>, libipld::Ipld>>::empty() ==> r is Some,
    {
        match node.block_cid() {
            Some(c) => {
                let k = c.duplicate();
                self.insert(k, node);
                Some(c)
            },
            None => None,
        }
    }

    /// The number of stored nodes.
    pub fn len(&self) -> (r: usize)
        requires
            self.wf(),
        ensures
            r == self@.len(),
    {
        proof {
            lemma_to_map_len(cache_models(self.entries@));
        }
        self.entries.len()
    }

    /// Every stored (CID, node) pair, each CID once.
    pub fn blocks(&self) -> (r: Vec<(Cid, Node)>)
        requires
            self.wf(),
        ensures
            keys_unique(cache_models(r@)),
            to_map(cache_models(r@)) == self@,
            forall|i: int| 0 <= i < r@.len() ==> (#[trigger] r@[i]).1.wf(),
    {
        let mut out: Vec<(Cid, Node)> = Vec::new();
        let mut i: usize = 0;
        while i < self.entries.len()
            invariant
                self.wf(),
                i <= self.entries.len(),
                out@.len() == i,
                forall|j: int| 0 <= j < i ==> #[trigger] out@[j].0@ == self.entries@[j].0@ && out@[j].1@ == self.entries@[j].1@ && out@[j].1.wf(),
            decreases self.entries.len() - i,
        {
            assert(self.entries@[i as int].1.wf());
            out.push((self.entries[i].0.duplicate(), self.entries[i].1.duplicate()));
            i = i + 1;
        }
        assert(cache_models(out@) =~= cache_models(self.entries@));
        assert forall|j: int| 0 <= j < out@.len() implies (#[trigger] out@[j]).1.wf() by {
            assert(out@[j].0@ == self.entries@[j].0@);
        }
        out
    }
}

} // verus!
