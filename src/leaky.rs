//! The working state of one local copy: the current manifest and its CID, and
//! the block cache; the operations that change the tree go through here.
use vstd::prelude::*;
use crate::cache::{BlockCache, stored_cid, cache_models};
use crate::assoc::{keys_unique, to_map};
use crate::cid::Cid;
use crate::manifest::{Manifest, ManifestModel, manifest_block_of, MANIFEST_VERSION};
use crate::node::{Node, NodeModel, node_block_of};
use crate::object::Object;
use crate::path::{clean_path, clean_segments, path_model};
use crate::tree::{TreeError, Upserted, UpsertModel, ListEntry, upsert_at, upsert_spec, segs, empty_node, ls, file_link, items, items_sorted, file_at};
use crate::change_log::{ChangeLog, ChangeType, log_models};
use crate::sorted::PathModel;
use crate::cid::{tombstone_bytes, is_raw_cid};
use crate::node::link_models;
use crate::assoc::lemma_to_map_facts;

verus! {

/// Why an operation on the working state failed.
#[derive(Debug, Clone)]
pub enum LeakyError {
    /// No manifest or CID is set yet.
    NotInitialized,
    /// A manifest is already set.
    AlreadyInitialized,
    /// The path does not start at the root.
    NotAbsolute,
    /// The tree engine failed.
    Tree(TreeError),
    /// A node or manifest could not be encoded.
    Unencodable,
    /// A block's CID is not the one expected (expected, found).
    CidMismatch(Cid, Cid),
    /// A push was prepared from another state than the current one.
    StalePush,
}

/// The mathematical content of a [`Leaky`] state.
pub struct LeakyModel {
    pub cid: Option<Seq<u8>>,
    pub manifest: Option<ManifestModel>,
    pub cache: Map<Seq<u8>, NodeModel>,
}

pub open spec fn manifest_cid_of(m: ManifestModel) -> Option<Seq<u8>> {
    match manifest_block_of(m) {
        Some(b) => Some(b.0),
        None => None,
    }
}

pub open spec fn with_data(m: ManifestModel, k: Seq<u8>) -> ManifestModel {
    ManifestModel { data: k, ..m }
}

pub open spec fn with_previous(m: ManifestModel, k: Seq<u8>) -> ManifestModel {
    ManifestModel { previous: k, ..m }
}

/// The manifest of a fresh tree: the current version, no previous revision,
/// and the given root node.
pub open spec fn fresh_manifest(root: Seq<u8>) -> ManifestModel {
    ManifestModel { version: MANIFEST_VERSION, previous: tombstone_bytes(), data: root }
}

/// The state after the root node of a revision became `k`: the manifest points
/// at it and the CID is that of the manifest; `None` where the manifest cannot
/// be encoded.
pub open spec fn commit_spec(s: LeakyModel, k: Seq<u8>, c: Map<Seq<u8>, NodeModel>) -> Option<LeakyModel> {
    let m = with_data(s.manifest.unwrap(), k);
    match manifest_cid_of(m) {
        Some(mc) => Some(LeakyModel { cid: Some(mc), manifest: Some(m), cache: c }),
        None => None,
    }
}

/// The state after an upsert of `path` in the tree of `s` (or a removal, with
/// neither link nor metadata), or `None` where it fails. A tree that loses its
/// last entry gets a fresh empty root node.
pub open spec fn mutate_spec(
    s: LeakyModel,
    path: Seq<Seq<char>>,
    link: Option<Seq<u8>>,
    meta: Option<Map<Seq<char>, libipld::Ipld>>,
) -> Option<LeakyModel> {
    let (r, c) = upsert_spec(s.cache, s.manifest.unwrap().data, path, 0, link, meta);
    match r {
        UpsertModel::Unchanged => Some(LeakyModel { cache: c, ..s }),
        UpsertModel::Updated(k) => commit_spec(s, k, c),
        UpsertModel::Emptied => match stored_cid(empty_node()) {
            Some(k) => commit_spec(s, k, c.insert(k, empty_node())),
            None => None,
        },
        _ => None,
    }
}

/// The manifest a push commits: the current one, linked back to the current revision.
pub open spec fn pushed_manifest(s: LeakyModel) -> ManifestModel {
    with_previous(s.manifest.unwrap(), s.cid.unwrap())
}

/// The manifest committed by a push names the revision it replaces as its
/// previous one, and keeps the root node and version of the current manifest.
pub proof fn law_push_links_previous(s: LeakyModel)
    requires
        s.cid is Some,
        s.manifest is Some,
    ensures
        pushed_manifest(s).previous == s.cid.unwrap(),
        pushed_manifest(s).data == s.manifest.unwrap().data,
        pushed_manifest(s).version == s.manifest.unwrap().version,
{
}

/// What a push sends: every cached node's block, and the new manifest that
/// links back to the revision being replaced.
#[derive(Debug, Clone)]
pub struct PushPlan {
    /// (CID, encoded bytes) of every node in the cache.
    pub blocks: Vec<(Cid, Vec<u8>)>,
    /// The manifest to commit: the current one with `previous` set.
    pub manifest: Manifest,
    /// The CID of the new manifest.
    pub cid: Cid,
    /// The encoded bytes of the new manifest.
    pub block: Vec<u8>,
    /// The CID of the revision being replaced.
    pub previous: Cid,
}

/// The working state: current manifest and CID (both set, or neither) and the cache.
#[derive(Debug, Clone)]
pub struct Leaky {
    cid: Option<Cid>,
    manifest: Option<Manifest>,
    cache: BlockCache,
}

impl View for Leaky {
    type V = LeakyModel;

    closed spec fn view(&self) -> LeakyModel {
        LeakyModel {
            cid: match self.cid {
                Some(c) => Some(c@),
                None => None,
            },
            manifest: match self.manifest {
                Some(m) => Some(m@),
                None => None,
            },
            cache: self.cache@,
        }
    }
}

impl Leaky {
    pub closed spec fn wf(&self) -> bool {
        &&& self.cache.wf()
        &&& self.cid is Some <==> self.manifest is Some
    }

    /// A state with nothing set and an empty cache.
    pub fn new() -> (r: Leaky)
        ensures
            r.wf(),
            r@.cid is None,
            r@.manifest is None,
            r@.cache == Map::<Seq<u8>, NodeModel>::empty(),
    {
        Leaky { cid: None, manifest: None, cache: BlockCache::new() }
    }

    /// The CID of the current manifest.
    pub fn cid(&self) -> (r: Result<Cid, LeakyError>)
        ensures
            match r {
                Ok(c) => self@.cid == Some(c@),
                Err(e) => self@.cid is None && e is NotInitialized,
            },
    {
        match &self.cid {
            Some(c) => Ok(c.duplicate()),
            None => Err(LeakyError::NotInitialized),
        }
    }

    /// The current manifest.
    pub fn manifest(&self) -> (r: Result<Manifest, LeakyError>)
        ensures
            match r {
                Ok(m) => self@.manifest == Some(m@),
                Err(e) => self@.manifest is None && e is NotInitialized,
            },
    {
        match &self.manifest {
            Some(m) => Ok(m.duplicate()),
            None => Err(LeakyError::NotInitialized),
        }
    }

    /// The block cache.
    pub fn block_cache(&self) -> (r: &BlockCache)
        requires
            self.wf(),
        ensures
            r.wf(),
            r@ == self@.cache,
    {
        &self.cache
    }

    /// Starts a new tree: an empty root node in the cache, and a manifest that
    /// points at it with no previous revision.
    pub fn init(&mut self) -> (r: Result<(), LeakyError>)
        requires
            old(self).wf(),
        ensures
            final(self).wf(),
            old(self)@.cid is Some ==> r is Err && r->Err_0 is AlreadyInitialized && final(self)@ == old(self)@,
            old(self)@.cid is None ==> r is Ok,
            old(self)@.cid is None ==> match r {
                Ok(()) => stored_cid(empty_node()) matches Some(k)
                    && final(self)@.cache == old(self)@.cache.insert(k, empty_node())
                    && final(self)@.manifest == Some(fresh_manifest(k))
                    && final(self)@.cid == manifest_cid_of(fresh_manifest(k)),
                Err(e) => e is Unencodable && final(self)@.cid is None && final(self)@.manifest is None,
            },
    {
        if self.cid.is_some() {
            return Err(LeakyError::AlreadyInitialized);
        }
        let fresh = Node::new();
        assert(fresh@ == empty_node());
        let root = match self.cache.put(fresh) {
            Some(c) => c,
            None => return Err(LeakyError::Unencodable),
        };
        let mut manifest = Manifest::new();
        manifest.set_data(root);
        let cid = match manifest.encode() {
            Some((c, _)) => c,
            None => return Err(LeakyError::Unencodable),
        };
        self.cid = Some(cid);
        self.manifest = Some(manifest);
        Ok(())
    }

    /// Applies an upsert (or, with neither link nor metadata, a removal) at
    /// `path`, then points the manifest at the new root.
    pub fn mutate(&mut self, path: &Vec<String>, link: Option<&Cid>, meta: Option<&Object>) -> (r: Result<(), LeakyError>)
        requires
            old(self).wf(),
            meta matches Some(m) ==> m.wf(),
        ensures
            final(self).wf(),
            old(self)@.cid is None ==> r is Err && r->Err_0 is NotInitialized && final(self)@ == old(self)@,
            old(self)@.cid is Some ==> match mutate_spec(old(self)@, segs(path@), crate::tree::link_model(link), crate::tree::meta_model(meta)) {
                Some(s2) => r is Ok && final(self)@ == s2,
                None => r is Err && final(self)@.cid == old(self)@.cid && final(self)@.manifest == old(self)@.manifest,
            },
    {
        let manifest = match &self.manifest {
            Some(m) => m.duplicate(),
            None => return Err(LeakyError::NotInitialized),
        };
        let root = manifest.data().duplicate();
        let r = upsert_at(&mut self.cache, &root, path, 0, link, meta);
        let k = match r {
            Ok(Upserted::Unchanged) => return Ok(()),
            Ok(Upserted::Updated(k)) => k,
            Ok(Upserted::Emptied) => {
                let fresh = Node::new();
                assert(fresh@ == empty_node());
                match self.cache.put(fresh) {
                    Some(k) => k,
                    None => return Err(LeakyError::Unencodable),
                }
            },
            Err(e) => return Err(LeakyError::Tree(e)),
        };
        let mut m = manifest;
        m.set_data(k);
        match m.encode() {
            None => Err(LeakyError::Unencodable),
            Some((c, _)) => {
                self.cid = Some(c);
                self.manifest = Some(m);
                Ok(())
            },
        }
    }

    /// Adds (or updates) the file at the absolute `path` with content `data`,
    /// merging `meta` into its metadata. Returns the content CID.
    pub fn add(&mut self, path: &str, data: &Cid, meta: Option<&Object>) -> (r: Result<Cid, LeakyError>)
        requires
            old(self).wf(),
            meta matches Some(m) ==> m.wf(),
        ensures
            final(self).wf(),
            !(path@.len() > 0 && path@[0] == '/') ==> r is Err && r->Err_0 is NotAbsolute && final(self)@ == old(self)@,
            path@.len() > 0 && path@[0] == '/' && old(self)@.cid is None ==> r is Err && r->Err_0 is NotInitialized && final(self)@ == old(self)@,
            path@.len() > 0 && path@[0] == '/' && old(self)@.cid is Some ==> match mutate_spec(old(self)@, clean_segments(path@), Some(data@), crate::tree::meta_model(meta)) {
                Some(s2) => r is Ok && r->Ok_0@ == data@ && final(self)@ == s2,
                None => r is Err && final(self)@.cid == old(self)@.cid && final(self)@.manifest == old(self)@.manifest,
            },
    {
        let p = match clean_path(path) {
            Some(p) => p,
            None => return Err(LeakyError::NotAbsolute),
        };
        self.mutate(&p, Some(data), meta)?;
        Ok(data.duplicate())
    }

    /// Merges `meta` into the metadata of the entry at the absolute `path`.
    pub fn tag(&mut self, path: &str, meta: &Object) -> (r: Result<(), LeakyError>)
        requires
            old(self).wf(),
            meta.wf(),
        ensures
            final(self).wf(),
            !(path@.len() > 0 && path@[0] == '/') ==> r is Err && r->Err_0 is NotAbsolute && final(self)@ == old(self)@,
            path@.len() > 0 && path@[0] == '/' && old(self)@.cid is None ==> r is Err && r->Err_0 is NotInitialized && final(self)@ == old(self)@,
            path@.len() > 0 && path@[0] == '/' && old(self)@.cid is Some ==> match mutate_spec(old(self)@, clean_segments(path@), None, Some(meta@)) {
                Some(s2) => r is Ok && final(self)@ == s2,
                None => r is Err && final(self)@.cid == old(self)@.cid && final(self)@.manifest == old(self)@.manifest,
            },
    {
        let p = match clean_path(path) {
            Some(p) => p,
            None => return Err(LeakyError::NotAbsolute),
        };
        self.mutate(&p, None, Some(meta))
    }

    /// Removes the entry at the absolute `path`; directories left empty go too.
    pub fn rm(&mut self, path: &str) -> (r: Result<(), LeakyError>)
        requires
            old(self).wf(),
        ensures
            final(self).wf(),
            !(path@.len() > 0 && path@[0] == '/') ==> r is Err && r->Err_0 is NotAbsolute && final(self)@ == old(self)@,
            path@.len() > 0 && path@[0] == '/' && old(self)@.cid is None ==> r is Err && r->Err_0 is NotInitialized && final(self)@ == old(self)@,
            path@.len() > 0 && path@[0] == '/' && old(self)@.cid is Some ==> match mutate_spec(old(self)@, clean_segments(path@), None, None) {
                Some(s2) => r is Ok && final(self)@ == s2,
                None => r is Err && final(self)@.cid == old(self)@.cid && final(self)@.manifest == old(self)@.manifest,
            },
    {
        let p = match clean_path(path) {
            Some(p) => p,
            None => return Err(LeakyError::NotAbsolute),
        };
        self.mutate(&p, None, None)
    }

    /// The entries of the directory at the absolute `path`.
    pub fn ls(&self, path: &str) -> (r: Result<Vec<ListEntry>, LeakyError>)
        requires
            self.wf(),
        ensures
            !(path@.len() > 0 && path@[0] == '/') ==> r is Err && r->Err_0 is NotAbsolute,
            path@.len() > 0 && path@[0] == '/' && self@.manifest is None ==> r is Err && r->Err_0 is NotInitialized,
            path@.len() > 0 && path@[0] == '/' && self@.manifest is Some ==> match crate::tree::lookup_dir(
                self@.cache, self@.manifest.unwrap().data, clean_segments(path@), clean_segments(path@).len() as int) {
                crate::tree::LookupModel::Found(n) => r is Ok && crate::tree::is_listing(r->Ok_0@, n),
                _ => r is Err,
            },
    {
        let p = match clean_path(path) {
            Some(p) => p,
            None => return Err(LeakyError::NotAbsolute),
        };
        let m = match &self.manifest {
            Some(m) => m,
            None => return Err(LeakyError::NotInitialized),
        };
        match ls(&self.cache, m.data(), &p) {
            Ok(v) => Ok(v),
            Err(e) => Err(LeakyError::Tree(e)),
        }
    }

    /// The content CID of the file at the absolute `path`; its bytes are read
    /// from the content store by that CID.
    pub fn cat(&self, path: &str) -> (r: Result<Cid, LeakyError>)
        requires
            self.wf(),
        ensures
            !(path@.len() > 0 && path@[0] == '/') ==> r is Err && r->Err_0 is NotAbsolute,
            path@.len() > 0 && path@[0] == '/' && self@.manifest is None ==> r is Err && r->Err_0 is NotInitialized,
            path@.len() > 0 && path@[0] == '/' && self@.manifest is Some && clean_segments(path@).len() == 0 ==> r is Err,
            path@.len() > 0 && path@[0] == '/' && self@.manifest is Some && clean_segments(path@).len() > 0 ==> match crate::tree::lookup_dir(
                self@.cache, self@.manifest.unwrap().data, clean_segments(path@), clean_segments(path@).len() - 1) {
                crate::tree::LookupModel::Found(n) => if n.links.contains_key(clean_segments(path@).last())
                    && n.objects.contains_key(clean_segments(path@).last()) {
                    r is Ok && r->Ok_0@ == n.links[clean_segments(path@).last()]
                } else {
                    r is Err
                },
                _ => r is Err,
            },
    {
        let p = match clean_path(path) {
            Some(p) => p,
            None => return Err(LeakyError::NotAbsolute),
        };
        let m = match &self.manifest {
            Some(m) => m,
            None => return Err(LeakyError::NotInitialized),
        };
        match file_link(&self.cache, m.data(), &p) {
            Ok(c) => Ok(c),
            Err(e) => Err(LeakyError::Tree(e)),
        }
    }
}

impl Leaky {
    /// Restores a saved state. The manifest must encode to the recorded CID;
    /// otherwise nothing changes.
    pub fn load(&mut self, cid: Cid, manifest: Manifest, cache: BlockCache) -> (r: Result<(), LeakyError>)
        requires
            old(self).wf(),
            cache.wf(),
        ensures
            final(self).wf(),
            match manifest_cid_of(manifest@) {
                Some(k) => if k == cid@ {
                    r is Ok && final(self)@ == (LeakyModel { cid: Some(cid@), manifest: Some(manifest@), cache: cache@ })
                } else {
                    r matches Err(LeakyError::CidMismatch(e, f)) && e@ == cid@ && f@ == k && final(self)@ == old(self)@
                },
                None => r matches Err(LeakyError::Unencodable) && final(self)@ == old(self)@,
            },
    {
        let k = match manifest.encode() {
            Some((k, _)) => k,
            None => return Err(LeakyError::Unencodable),
        };
        if let Err(e) = check_cid(&cid, &k) {
            return Err(e);
        }
        self.cid = Some(cid);
        self.manifest = Some(manifest);
        self.cache = cache;
        Ok(())
    }

    /// Installs a revision fetched from the remote store: its manifest (by
    /// `cid`) and nodes, each with the CID it was fetched by. Each must encode
    /// back to that CID; otherwise nothing changes.
    pub fn pull(&mut self, cid: Cid, manifest: Manifest, nodes: Vec<(Cid, Node)>) -> (r: Result<(), LeakyError>)
        requires
            old(self).wf(),
            forall|i: int| 0 <= i < nodes@.len() ==> (#[trigger] nodes@[i]).1.wf(),
        ensures
            final(self).wf(),
            r is Ok <==> manifest_cid_of(manifest@) == Some(cid@)
                && forall|i: int| 0 <= i < nodes@.len() ==> stored_cid((#[trigger] nodes@[i]).1@) == Some(nodes@[i].0@),
            r is Ok ==> final(self)@.cid == Some(cid@) && final(self)@.manifest == Some(manifest@)
                && final(self)@.cache == old(self)@.cache.union_prefer_right(to_map(cache_models(nodes@))),
            r is Err ==> final(self)@ == old(self)@,
    {
        let k = match manifest.encode() {
            Some((k, _)) => k,
            None => return Err(LeakyError::Unencodable),
        };
        if let Err(e) = check_cid(&cid, &k) {
            return Err(e);
        }
        let mut i: usize = 0;
        while i < nodes.len()
            invariant
                self.wf(),
                self@ == old(self)@,
                forall|j: int| 0 <= j < nodes@.len() ==> (#[trigger] nodes@[j]).1.wf(),
                i <= nodes.len(),
                forall|j: int| 0 <= j < i ==> stored_cid((#[trigger] nodes@[j]).1@) == Some(nodes@[j].0@),
            decreases nodes.len() - i,
        {
            match nodes[i].1.block_cid() {
                Some(c) => {
                    if let Err(e) = check_cid(&nodes[i].0, &c) {
                        return Err(e);
                    }
                },
                None => return Err(LeakyError::Unencodable),
            }
            i = i + 1;
        }
        let ghost c0 = self.cache@;
        let mut cache = BlockCache::new();
        let blocks = self.cache.blocks();
        let mut j: usize = 0;
        while j < blocks.len()
            invariant
                cache.wf(),
                j <= blocks.len(),
                keys_unique(cache_models(blocks@)),
                forall|x: int| 0 <= x < blocks@.len() ==> (#[trigger] blocks@[x]).1.wf(),
                cache@ == to_map(cache_models(blocks@.subrange(0, j as int))),
            decreases blocks.len() - j,
        {
            let (c, n) = (blocks[j].0.duplicate(), blocks[j].1.duplicate());
            cache.insert(c, n);
            proof {
                let pre = cache_models(blocks@.subrange(0, j as int));
                assert(cache_models(blocks@.subrange(0, j + 1)) =~= pre.push((blocks@[j as int].0@, blocks@[j as int].1@)));
                assert(pre.push((blocks@[j as int].0@, blocks@[j as int].1@)).drop_last() =~= pre);
            }
            j = j + 1;
        }
        assert(blocks@.subrange(0, j as int) =~= blocks@);
        let mut n: usize = 0;
        while n < nodes.len()
            invariant
                cache.wf(),
                n <= nodes.len(),
                forall|x: int| 0 <= x < nodes@.len() ==> (#[trigger] nodes@[x]).1.wf(),
                cache@ == c0.union_prefer_right(to_map(cache_models(nodes@.subrange(0, n as int)))),
            decreases nodes.len() - n,
        {
            assert(nodes@[n as int].1.wf());
            cache.insert(nodes[n].0.duplicate(), nodes[n].1.duplicate());
            proof {
                let pre = cache_models(nodes@.subrange(0, n as int));
                let e = (nodes@[n as int].0@, nodes@[n as int].1@);
                assert(cache_models(nodes@.subrange(0, n + 1)) =~= pre.push(e));
                assert(pre.push(e).drop_last() =~= pre);
                assert(c0.union_prefer_right(to_map(pre)).insert(e.0, e.1) =~= c0.union_prefer_right(to_map(pre).insert(e.0, e.1)));
            }
            n = n + 1;
        }
        assert(nodes@.subrange(0, n as int) =~= nodes@);
        self.cid = Some(cid);
        self.manifest = Some(manifest);
        self.cache = cache;
        Ok(())
    }

    /// Prepares a push: the encoded block of every cached node, and the
    /// current manifest re-linked to the current revision as its previous one.
    /// Nothing changes until [`Leaky::commit_push`].
    pub fn prepare_push(&self) -> (r: Result<PushPlan, LeakyError>)
        requires
            self.wf(),
        ensures
            self@.cid is None ==> r is Err && r->Err_0 is NotInitialized,
            self@.cid is Some && (forall|k: Seq<u8>| #[trigger] self@.cache.contains_key(k) ==> stored_cid(self@.cache[k]) == Some(k))
                && manifest_block_of(with_previous(self@.manifest.unwrap(), self@.cid.unwrap())) is Some ==> r is Ok,
            r is Ok ==> {
                let p = r->Ok_0;
                &&& self@.cid == Some(p.previous@)
                &&& p.manifest@ == pushed_manifest(self@)
                &&& manifest_block_of(p.manifest@) == Some((p.cid@, p.block@))
                &&& forall|i: int| 0 <= i < p.blocks@.len() ==> self@.cache.contains_key((#[trigger] p.blocks@[i]).0@)
                    && node_block_of(self@.cache[p.blocks@[i].0@]) == Some((p.blocks@[i].0@, p.blocks@[i].1@))
                &&& forall|k: Seq<u8>| #[trigger] self@.cache.contains_key(k) ==> exists|i: int| 0 <= i < p.blocks@.len() && p.blocks@[i].0@ == k
            },
            r matches Err(LeakyError::CidMismatch(e, f)) ==> self@.cache.contains_key(e@)
                && stored_cid(self@.cache[e@]) == Some(f@) && e@ != f@,
    {
        let previous = match &self.cid {
            Some(c) => c.duplicate(),
            None => return Err(LeakyError::NotInitialized),
        };
        let entries = self.cache.blocks();
        let ghost cm = cache_models(entries@);
        proof {
            lemma_to_map_facts(cm);
        }
        let mut blocks: Vec<(Cid, Vec<u8>)> = Vec::new();
        let mut i: usize = 0;
        while i < entries.len()
            invariant
                self.wf(),
                self@.cid == Some(previous@),
                cm == cache_models(entries@),
                keys_unique(cm),
                to_map(cm) == self@.cache,
                forall|x: int| 0 <= x < entries@.len() ==> (#[trigger] entries@[x]).1.wf(),
                i <= entries.len(),
                blocks@.len() == i,
                forall|x: int| 0 <= x < i ==> (#[trigger] blocks@[x]).0@ == entries@[x].0@
                    && node_block_of(entries@[x].1@) == Some((blocks@[x].0@, blocks@[x].1@)),
            decreases entries.len() - i,
        {
            proof {
                lemma_to_map_facts(cm);
                assert(cm[i as int] == (entries@[i as int].0@, entries@[i as int].1@));
                assert(self@.cache.contains_key(entries@[i as int].0@) && self@.cache[entries@[i as int].0@] == entries@[i as int].1@);
            }
            match entries[i].1.encode() {
                Some((c, d)) => {
                    if let Err(e) = check_cid(&entries[i].0, &c) {
                        return Err(e);
                    }
                    blocks.push((c, d));
                },
                None => return Err(LeakyError::Unencodable),
            }
            i = i + 1;
        }
        let mut manifest = match &self.manifest {
            Some(m) => m.duplicate(),
            None => return Err(LeakyError::NotInitialized),
        };
        manifest.set_previous(previous.duplicate());
        let (cid, block) = match manifest.encode() {
            Some(x) => x,
            None => return Err(LeakyError::Unencodable),
        };
        proof {
            lemma_to_map_facts(cm);
            assert forall|x: int| 0 <= x < blocks@.len() implies self@.cache.contains_key((#[trigger] blocks@[x]).0@)
                && node_block_of(self@.cache[blocks@[x].0@]) == Some((blocks@[x].0@, blocks@[x].1@)) by {
                assert(cm[x] == (entries@[x].0@, entries@[x].1@));
            }
            assert forall|k: Seq<u8>| #[trigger] self@.cache.contains_key(k) implies exists|x: int| 0 <= x < blocks@.len() && blocks@[x].0@ == k by {
                let x = choose|x: int| 0 <= x < cm.len() && cm[x].0 == k;
                assert(blocks@[x].0@ == k);
            }
        }
        Ok(PushPlan { blocks, manifest, cid, block, previous })
    }

    /// Makes a pushed revision current, once the remote store holds its blocks
    /// and the root service took its CID. A plan prepared from another
    /// revision than the current one is refused and nothing changes.
    pub fn commit_push(&mut self, plan: PushPlan) -> (r: Result<(), LeakyError>)
        requires
            old(self).wf(),
        ensures
            final(self).wf(),
            r is Ok <==> old(self)@.cid == Some(plan.previous@),
            r is Ok ==> final(self)@ == (LeakyModel { cid: Some(plan.cid@), manifest: Some(plan.manifest@), cache: old(self)@.cache }),
            r is Err ==> r->Err_0 is StalePush && final(self)@ == old(self)@,
    {
        let current = match &self.cid {
            Some(c) => c.duplicate(),
            None => return Err(LeakyError::StalePush),
        };
        if current != plan.previous {
            return Err(LeakyError::StalePush);
        }
        self.cid = Some(plan.cid);
        self.manifest = Some(plan.manifest);
        Ok(())
    }
}

/// `c` is the link of some entry of `n`.
pub open spec fn links_to(n: NodeModel, c: Seq<u8>) -> bool {
    exists|name: Seq<char>| n.links.contains_key(name) && n.links[name] == c
}

/// The CIDs below a node that a pull still has to fetch: its links, except
/// raw file blocks (which are content, not nodes). In name order.
pub fn links_to_fetch(node: &Node) -> (r: Vec<Cid>)
    requires
        node.wf(),
    ensures
        forall|i: int| 0 <= i < r@.len() ==> !is_raw_cid((#[trigger] r@[i])@) && links_to(node@, r@[i]@),
        forall|name: Seq<char>| #[trigger] node@.links.contains_key(name) && !is_raw_cid(node@.links[name])
            ==> exists|i: int| 0 <= i < r@.len() && r@[i]@ == node@.links[name],
{
    let links = node.get_links();
    let ghost lm = link_models(links@);
    proof {
        lemma_to_map_facts(lm);
    }
    let mut out: Vec<Cid> = Vec::new();
    let mut i: usize = 0;
    while i < links.len()
        invariant
            lm == link_models(links@),
            keys_unique(lm),
            to_map(lm) == node@.links,
            i <= links.len(),
            forall|x: int| 0 <= x < out@.len() ==> !is_raw_cid((#[trigger] out@[x])@) && links_to(node@, out@[x]@),
            forall|y: int| 0 <= y < i && !is_raw_cid(lm[y].1) ==> exists|x: int| 0 <= x < out@.len() && (#[trigger] out@[x])@ == lm[y].1,
        decreases links.len() - i,
    {
        proof {
            lemma_to_map_facts(lm);
            assert(lm[i as int] == (links@[i as int].0@, links@[i as int].1@));
            assert(node@.links.contains_key(lm[i as int].0) && node@.links[lm[i as int].0] == lm[i as int].1);
        }
        if !links[i].1.is_raw() {
            let ghost before = out@;
            out.push(links[i].1.duplicate());
            proof {
                assert(out@[before.len() as int]@ == lm[i as int].1);
                assert forall|y: int| 0 <= y < i + 1 && !is_raw_cid(lm[y].1) implies exists|x: int| 0 <= x < out@.len() && (#[trigger] out@[x])@ == lm[y].1 by {
                    if y < i {
                        let x = choose|x: int| 0 <= x < before.len() && (#[trigger] before[x])@ == lm[y].1;
                        assert(out@[x] == before[x]);
                    } else {
                        assert(out@[before.len() as int]@ == lm[y].1);
                    }
                }
                assert forall|x: int| 0 <= x < out@.len() implies !is_raw_cid((#[trigger] out@[x])@) && links_to(node@, out@[x]@) by {
                    if x < before.len() {
                        assert(out@[x] == before[x]);
                    } else {
                        assert(node@.links.contains_key(lm[i as int].0) && node@.links[lm[i as int].0] == out@[x]@);
                    }
                }
            }
        }
        i = i + 1;
    }
    proof {
        lemma_to_map_facts(lm);
        assert forall|name: Seq<char>| #[trigger] node@.links.contains_key(name) && !is_raw_cid(node@.links[name])
            implies exists|i: int| 0 <= i < out@.len() && out@[i]@ == node@.links[name] by {
            let y = choose|y: int| 0 <= y < lm.len() && lm[y].0 == name;
            assert(node@.links[lm[y].0] == lm[y].1);
        }
    }
    out
}

/// The state after staging one change-log entry: an added or modified file is
/// written with its recorded CID, a removed one is removed, the rest is left.
pub open spec fn stage_one(s: LeakyModel, e: (PathModel, (Seq<u8>, ChangeType))) -> Option<LeakyModel> {
    match e.1.1 {
        ChangeType::Added { modified: true } | ChangeType::Modified => mutate_spec(s, e.0, Some(e.1.0), None),
        ChangeType::Removed => mutate_spec(s, e.0, None, None),
        _ => Some(s),
    }
}

/// The state after staging the entries of a change log in order.
pub open spec fn stage_spec(s: LeakyModel, log: Seq<(PathModel, (Seq<u8>, ChangeType))>) -> Option<LeakyModel>
    decreases log.len(),
{
    if log.len() == 0 {
        Some(s)
    } else {
        match stage_spec(s, log.drop_last()) {
            Some(s1) => stage_one(s1, log.last()),
            None => None,
        }
    }
}

proof fn lemma_mutate_keeps_cid(s: LeakyModel, path: Seq<Seq<char>>, link: Option<Seq<u8>>, meta: Option<Map<Seq<char>, libipld::Ipld>>)
    requires
        s.cid is Some,
        s.manifest is Some,
    ensures
        mutate_spec(s, path, link, meta) matches Some(s2) ==> s2.cid is Some && s2.manifest is Some,
{
}

impl Leaky {
    /// Applies the entries of an updated change log to the tree, in path
    /// order: added (and modified since) or modified files are written with
    /// their recorded CID, removed files are removed.
    pub fn stage(&mut self, updates: &ChangeLog) -> (r: Result<(), LeakyError>)
        requires
            old(self).wf(),
            updates.wf(),
        ensures
            final(self).wf(),
            old(self)@.cid is None ==> r is Err && r->Err_0 is NotInitialized && final(self)@ == old(self)@,
            old(self)@.cid is Some ==> match stage_spec(old(self)@, updates.entry_seq()) {
                Some(s2) => r is Ok && final(self)@ == s2,
                None => r is Err,
            },
    {
        if self.cid.is_none() {
            return Err(LeakyError::NotInitialized);
        }
        let entries = updates.entries();
        let ghost log = updates.entry_seq();
        let mut i: usize = 0;
        while i < entries.len()
            invariant
                self.wf(),
                self@.cid is Some,
                old(self)@.cid is Some,
                log == updates.entry_seq(),
                log_models(entries@) == log,
                i <= entries.len(),
                stage_spec(old(self)@, log.subrange(0, i as int)) == Some(self@),
            decreases entries.len() - i,
        {
            let ghost before = self@;
            proof {
                assert(log.subrange(0, i + 1).drop_last() =~= log.subrange(0, i as int));
                assert(log.subrange(0, i + 1).last() == log[i as int]);
                assert(log[i as int] == (crate::path::path_model(entries@[i as int].0@), (entries@[i as int].1@, entries@[i as int].2)));
                lemma_mutate_keeps_cid(before, log[i as int].0, Some(log[i as int].1.0), None);
                lemma_mutate_keeps_cid(before, log[i as int].0, None, None);
            }
            let e = &entries[i];
            let step = match e.2 {
                ChangeType::Added { modified: true } | ChangeType::Modified => self.mutate(&e.0, Some(&e.1), None),
                ChangeType::Removed => self.mutate(&e.0, None, None),
                _ => Ok(()),
            };
            if step.is_err() {
                proof {
                    assert(log.subrange(0, i + 1).last() == log[i as int]);
                    assert(stage_spec(old(self)@, log.subrange(0, i as int)) == Some(before));
                    assert(stage_spec(old(self)@, log.subrange(0, i + 1)) == stage_one(before, log[i as int]));
                    assert(stage_one(before, log[i as int]) is None);
                    assert(stage_spec(old(self)@, log.subrange(0, i + 1)) is None);
                    lemma_stage_stays_failed(old(self)@, log, i + 1, log.len() as int);
                    assert(log.subrange(0, log.len() as int) =~= log);
                }
                return step;
            }
            i = i + 1;
        }
        assert(log.subrange(0, i as int) =~= log);
        Ok(())
    }

    /// Every file of the current tree, as (path, content CID) in path order; a
    /// tree deeper than `max_depth` levels is refused.
    pub fn items(&self, max_depth: usize) -> (r: Result<Vec<(Vec<String>, Cid)>, LeakyError>)
        requires
            self.wf(),
        ensures
            self@.manifest is None ==> r is Err && r->Err_0 is NotInitialized,
            r is Ok ==> self@.manifest is Some && items_sorted(r->Ok_0@)
                && (forall|x: int| 0 <= x < r->Ok_0@.len() ==> file_at(self@.cache, self@.manifest.unwrap().data,
                    crate::path::path_model((#[trigger] r->Ok_0@[x]).0@)) == Some(r->Ok_0@[x].1@))
                && forall|rel: Seq<Seq<char>>| #[trigger] crate::tree::walk_file(self@.cache, self@.cache[self@.manifest.unwrap().data], rel)
                    ==> exists|x: int| 0 <= x < r->Ok_0@.len() && crate::path::path_model(r->Ok_0@[x].0@) == rel,
            r is Err ==> self@.manifest is None || r->Err_0 is Tree,
            self@.manifest is Some && self@.cache.contains_key(self@.manifest.unwrap().data)
                && crate::tree::walkable(self@.cache, self@.cache[self@.manifest.unwrap().data], max_depth as int) ==> r is Ok,
    {
        let m = match &self.manifest {
            Some(m) => m,
            None => return Err(LeakyError::NotInitialized),
        };
        match items(&self.cache, m.data(), max_depth) {
            Ok(v) => Ok(v),
            Err(e) => Err(LeakyError::Tree(e)),
        }
    }
}

/// Once a fold step fails, every longer fold fails too.
proof fn lemma_stage_stays_failed(s: LeakyModel, log: Seq<(PathModel, (Seq<u8>, ChangeType))>, i: int, j: int)
    requires
        0 < i <= j <= log.len(),
        stage_spec(s, log.subrange(0, i)) is None,
    ensures
        stage_spec(s, log.subrange(0, j)) is None,
    decreases j - i,
{
    if j > i {
        lemma_stage_stays_failed(s, log, i, j - 1);
        assert(log.subrange(0, j).drop_last() =~= log.subrange(0, j - 1));
    }
}

/// Whether two CIDs are equal, as a `Result`: the found one must be the expected one.
pub fn check_cid(expected: &Cid, found: &Cid) -> (r: Result<(), LeakyError>)
    ensures
        match r {
            Ok(()) => expected@ == found@,
            Err(LeakyError::CidMismatch(e, f)) => expected@ != found@ && e@ == expected@ && f@ == found@,
            Err(_) => false,
        },
{
    if *expected == *found {
        Ok(())
    } else {
        Err(LeakyError::CidMismatch(expected.duplicate(), found.duplicate()))
    }
}

} // verus!
