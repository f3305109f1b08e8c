//! The tree engine: path-based upsert and removal that write new nodes
//! bottom-up into the block cache, and lookups along a path.
use vstd::prelude::*;
use crate::cache::{BlockCache, stored_cid};
use crate::cid::Cid;
use crate::node::{Node, NodeModel, merged_object, names_sorted, link_models};
use crate::assoc::{keys_unique, to_map, lemma_to_map_facts};
use crate::text::{text_lt, lemma_text_lt_transitive};
use crate::path::{path_model, path_lt, lemma_path_lt_prefix, lemma_path_lt_transitive};
use crate::change_log::copy_path;
use crate::object::Object;
use crate::text::{metadata_key, is_reserved_name};
use libipld::Ipld;

verus! {

/// What an upsert or removal did to the node it was applied to.
#[derive(Debug, Clone)]
pub enum Upserted {
    /// Nothing changed; the node keeps its CID.
    Unchanged,
    /// The node was rewritten and now has this CID.
    Updated(Cid),
    /// The node lost its last entry and must be removed from its parent.
    Emptied,
}

/// Why a tree operation failed.
#[derive(Debug, Clone)]
pub enum TreeError {
    /// A node on the path is neither in the cache nor fetched.
    CacheMiss(Cid),
    /// The path has no segment.
    EmptyPath,
    /// A path segment is the reserved metadata key.
    ReservedName,
    /// A node could not be encoded.
    Unencodable,
    /// A path segment names no entry.
    NotFound,
    /// A path segment that should be a directory is not a node in the cache.
    NotADirectory,
    /// The last path segment names a directory, not a file.
    NotAFile,
    /// The tree is deeper than a walk may descend.
    TooDeep,
}

/// The mathematical content of an upsert's outcome.
pub enum UpsertModel {
    Unchanged,
    Updated(Seq<u8>),
    Emptied,
    Missing(Seq<u8>),
    EmptyPath,
    Reserved,
    Unencodable,
    Other,
}

pub open spec fn upsert_model(r: Result<Upserted, TreeError>) -> UpsertModel {
    match r {
        Ok(Upserted::Unchanged) => UpsertModel::Unchanged,
        Ok(Upserted::Updated(c)) => UpsertModel::Updated(c@),
        Ok(Upserted::Emptied) => UpsertModel::Emptied,
        Err(TreeError::CacheMiss(c)) => UpsertModel::Missing(c@),
        Err(TreeError::EmptyPath) => UpsertModel::EmptyPath,
        Err(TreeError::ReservedName) => UpsertModel::Reserved,
        Err(TreeError::Unencodable) => UpsertModel::Unencodable,
        Err(_) => UpsertModel::Other,
    }
}

pub open spec fn segs(path: Seq<String>) -> Seq<Seq<char>> {
    crate::path::path_model(path)
}

pub open spec fn link_model(link: Option<&Cid>) -> Option<Seq<u8>> {
    match link {
        Some(l) => Some(l@),
        None => None,
    }
}

pub open spec fn meta_model(meta: Option<&Object>) -> Option<Map<Seq<char>, Ipld>> {
    match meta {
        Some(m) => Some(m@),
        None => None,
    }
}

pub open spec fn empty_node() -> NodeModel {
    NodeModel { links: Map::empty(), objects: Map::empty() }
}

/// The node without the entry `name`: its link, and its metadata if it had a link.
pub open spec fn node_without(n: NodeModel, name: Seq<char>) -> NodeModel {
    NodeModel {
        links: n.links.remove(name),
        objects: if n.links.contains_key(name) { n.objects.remove(name) } else { n.objects },
    }
}

pub open spec fn node_with_link(n: NodeModel, name: Seq<char>, l: Seq<u8>) -> NodeModel {
    NodeModel { links: n.links.insert(name, l), objects: n.objects }
}

/// The node with entry `name` written: its link set if one is given, its
/// metadata merged either way.
pub open spec fn node_updated(
    n: NodeModel,
    name: Seq<char>,
    link: Option<Seq<u8>>,
    meta: Option<Map<Seq<char>, Ipld>>,
) -> NodeModel {
    NodeModel {
        links: match link {
            Some(l) => n.links.insert(name, l),
            None => n.links,
        },
        objects: n.objects.insert(name, merged_object(n.objects, name, meta)),
    }
}

/// Writing a rewritten node over the one stored at `old_cid`: the node goes
/// into the cache under its own CID; it is unchanged when that CID is the old one.
pub open spec fn write_spec(c: Map<Seq<u8>, NodeModel>, n: NodeModel, old_cid: Seq<u8>) -> (UpsertModel, Map<Seq<u8>, NodeModel>) {
    match stored_cid(n) {
        None => (UpsertModel::Unencodable, c),
        Some(k) => (if k == old_cid { UpsertModel::Unchanged } else { UpsertModel::Updated(k) }, c.insert(k, n)),
    }
}

/// How the parent `node` (stored at `cid`) takes the outcome `r` of the
/// operation on its child `name`.
pub open spec fn ascend_spec(
    r: UpsertModel,
    c: Map<Seq<u8>, NodeModel>,
    node: NodeModel,
    cid: Seq<u8>,
    name: Seq<char>,
) -> (UpsertModel, Map<Seq<u8>, NodeModel>) {
    match r {
        UpsertModel::Emptied => {
            let n2 = node_without(node, name);
            if n2.links.len() == 0 {
                (UpsertModel::Emptied, c)
            } else {
                write_spec(c, n2, cid)
            }
        },
        UpsertModel::Updated(k) => write_spec(c, node_with_link(node, name, k), cid),
        _ => (r, c),
    }
}

/// Upsert (or, with neither link nor metadata, removal) of the entry at
/// `path[i..]` below the node stored at `cid`, and the cache it leaves.
pub open spec fn upsert_spec(
    c: Map<Seq<u8>, NodeModel>,
    cid: Seq<u8>,
    path: Seq<Seq<char>>,
    i: int,
    link: Option<Seq<u8>>,
    meta: Option<Map<Seq<char>, Ipld>>,
) -> (UpsertModel, Map<Seq<u8>, NodeModel>)
    decreases path.len() - i,
{
    if i < 0 || i >= path.len() {
        (UpsertModel::EmptyPath, c)
    } else if !c.contains_key(cid) {
        (UpsertModel::Missing(cid), c)
    } else if path[i] == metadata_key() {
        (UpsertModel::Reserved, c)
    } else {
        let node = c[cid];
        let name = path[i];
        let is_rm = link is None && meta is None;
        if i + 1 == path.len() {
            if is_rm {
                if !node.links.contains_key(name) {
                    (UpsertModel::Unchanged, c)
                } else if node_without(node, name).links.len() == 0 {
                    (UpsertModel::Emptied, c)
                } else {
                    write_spec(c, node_without(node, name), cid)
                }
            } else {
                write_spec(c, node_updated(node, name, link, meta), cid)
            }
        } else if node.links.contains_key(name) {
            let (r, c2) = upsert_spec(c, node.links[name], path, i + 1, link, meta);
            ascend_spec(r, c2, node, cid, name)
        } else if is_rm {
            (UpsertModel::Unchanged, c)
        } else {
            match stored_cid(empty_node()) {
                None => (UpsertModel::Unencodable, c),
                Some(k) => {
                    let (r, c2) = upsert_spec(c.insert(k, empty_node()), k, path, i + 1, link, meta);
                    ascend_spec(r, c2, node, cid, name)
                },
            }
        }
    }
}

fn write_node(cache: &mut BlockCache, node: Node, cid: &Cid) -> (r: Result<Upserted, TreeError>)
    requires
        old(cache).wf(),
        node.wf(),
    ensures
        final(cache).wf(),
        (upsert_model(r), final(cache)@) == write_spec(old(cache)@, node@, cid@),
{
    match cache.put(node) {
        None => Err(TreeError::Unencodable),
        Some(k) => {
            if k == *cid {
                Ok(Upserted::Unchanged)
            } else {
                Ok(Upserted::Updated(k))
            }
        },
    }
}

fn ascend(cache: &mut BlockCache, r: Result<Upserted, TreeError>, node: Node, cid: &Cid, name: &String) -> (out: Result<Upserted, TreeError>)
    requires
        old(cache).wf(),
        node.wf(),
        name@ != metadata_key(),
    ensures
        final(cache).wf(),
        (upsert_model(out), final(cache)@) == ascend_spec(upsert_model(r), old(cache)@, node@, cid@, name@),
{
    let mut node = node;
    match r {
        Ok(Upserted::Emptied) => {
            node.del(name.as_str());
            if node.size() == 0 {
                Ok(Upserted::Emptied)
            } else {
                write_node(cache, node, cid)
            }
        },
        Ok(Upserted::Updated(k)) => {
            node.put_link(name.as_str(), &k);
            write_node(cache, node, cid)
        },
        _ => r,
    }
}

/// Upserts the entry at `path[i..]` below the node stored at `cid`; with
/// neither link nor metadata, removes it instead. New nodes go into the cache.
pub fn upsert_at(
    cache: &mut BlockCache,
    cid: &Cid,
    path: &Vec<String>,
    i: usize,
    link: Option<&Cid>,
    meta: Option<&Object>,
) -> (r: Result<Upserted, TreeError>)
    requires
        old(cache).wf(),
        meta matches Some(m) ==> m.wf(),
    ensures
        final(cache).wf(),
        (upsert_model(r), final(cache)@) == upsert_spec(old(cache)@, cid@, segs(path@), i as int, link_model(link), meta_model(meta)),
    decreases path.len() - i,
{
    if i >= path.len() {
        return Err(TreeError::EmptyPath);
    }
    let node = match cache.get(cid) {
        Some(n) => n,
        None => return Err(TreeError::CacheMiss(cid.duplicate())),
    };
    let name = &path[i];
    assert(segs(path@)[i as int] == name@);
    if is_reserved_name(name.as_str()) {
        return Err(TreeError::ReservedName);
    }
    let is_rm = link.is_none() && meta.is_none();
    if i + 1 == path.len() {
        let mut node = node;
        if is_rm {
            let (removed, _) = node.del(name.as_str());
            if removed.is_none() {
                return Ok(Upserted::Unchanged);
            }
            if node.size() == 0 {
                return Ok(Upserted::Emptied);
            }
        } else {
            node.update_link(name.as_str(), link, meta);
        }
        return write_node(cache, node, cid);
    }
    let child = match node.get_link(name.as_str()) {
        Some(c) => c,
        None => {
            if is_rm {
                return Ok(Upserted::Unchanged);
            }
            match cache.put(Node::new()) {
                Some(c) => c,
                None => return Err(TreeError::Unencodable),
            }
        },
    };
    let r = upsert_at(cache, &child, path, i + 1, link, meta);
    ascend(cache, r, node, cid, name)
}

/// The outcome of resolving a directory along a path.
pub enum LookupModel {
    Found(NodeModel),
    NoEntry,
    NotDir,
    Missing(Seq<u8>),
}

/// Walks `path[i..end]` down from `node`: each segment must name an entry
/// whose link is a node in the cache.
pub open spec fn dir_at(c: Map<Seq<u8>, NodeModel>, node: NodeModel, path: Seq<Seq<char>>, i: int, end: int) -> LookupModel
    decreases end - i,
{
    if i >= end {
        LookupModel::Found(node)
    } else if !node.links.contains_key(path[i]) {
        LookupModel::NoEntry
    } else if !c.contains_key(node.links[path[i]]) {
        LookupModel::NotDir
    } else {
        dir_at(c, c[node.links[path[i]]], path, i + 1, end)
    }
}

/// The directory at `path[..end]` below the root node stored at `root`.
pub open spec fn lookup_dir(c: Map<Seq<u8>, NodeModel>, root: Seq<u8>, path: Seq<Seq<char>>, end: int) -> LookupModel {
    if !c.contains_key(root) {
        LookupModel::Missing(root)
    } else {
        dir_at(c, c[root], path, 0, end)
    }
}

pub open spec fn lookup_error(e: TreeError) -> LookupModel {
    match e {
        TreeError::CacheMiss(c) => LookupModel::Missing(c@),
        TreeError::NotFound => LookupModel::NoEntry,
        _ => LookupModel::NotDir,
    }
}

/// The node of the directory at `path[..end]` below the root `root`.
pub fn dir_node(cache: &BlockCache, root: &Cid, path: &Vec<String>, end: usize) -> (r: Result<Node, TreeError>)
    requires
        cache.wf(),
        end <= path.len(),
    ensures
        match r {
            Ok(n) => n.wf() && lookup_dir(cache@, root@, segs(path@), end as int) == LookupModel::Found(n@),
            Err(e) => lookup_dir(cache@, root@, segs(path@), end as int) == lookup_error(e),
        },
        r is Err ==> !(lookup_dir(cache@, root@, segs(path@), end as int) is Found),
{
    let mut node = match cache.get(root) {
        Some(n) => n,
        None => return Err(TreeError::CacheMiss(root.duplicate())),
    };
    let mut i: usize = 0;
    while i < end
        invariant
            cache.wf(),
            node.wf(),
            i <= end,
            end <= path.len(),
            lookup_dir(cache@, root@, segs(path@), end as int) == dir_at(cache@, node@, segs(path@), i as int, end as int),
        decreases end - i,
    {
        assert(segs(path@)[i as int] == path@[i as int]@);
        let next = match node.get_link(path[i].as_str()) {
            Some(c) => c,
            None => return Err(TreeError::NotFound),
        };
        node = match cache.get(&next) {
            Some(n) => n,
            None => return Err(TreeError::NotADirectory),
        };
        i = i + 1;
    }
    Ok(node)
}

/// One entry of a directory listing: name, link, and metadata if it is a file.
pub type ListEntry = (String, Cid, Option<Object>);

/// A listing shows a node's links in name order, each with its metadata, and
/// never the reserved name.
pub open spec fn is_listing(v: Seq<ListEntry>, n: NodeModel) -> bool {
    let links = v.map_values(|e: ListEntry| (e.0, e.1));
    &&& names_sorted(links)
    &&& to_map(link_models(links)) == n.links
    &&& forall|i: int| 0 <= i < v.len() ==> (#[trigger] v[i]).0@ != metadata_key()
    &&& forall|i: int| 0 <= i < v.len() ==> match (#[trigger] v[i]).2 {
        Some(o) => o.wf() && n.objects.contains_key(v[i].0@) && o@ == n.objects[v[i].0@],
        None => !n.objects.contains_key(v[i].0@),
    }
}

/// The entries of the directory at `path` below the root `root`.
pub fn ls(cache: &BlockCache, root: &Cid, path: &Vec<String>) -> (r: Result<Vec<ListEntry>, TreeError>)
    requires
        cache.wf(),
    ensures
        match r {
            Ok(v) => lookup_dir(cache@, root@, segs(path@), path@.len() as int) matches LookupModel::Found(n) && is_listing(v@, n),
            Err(e) => lookup_dir(cache@, root@, segs(path@), path@.len() as int) == lookup_error(e),
        },
{
    let node = dir_node(cache, root, path, path.len())?;
    let links = node.get_links();
    let mut out: Vec<ListEntry> = Vec::new();
    let mut i: usize = 0;
    while i < links.len()
        invariant
            node.wf(),
            names_sorted(links@),
            keys_unique(link_models(links@)),
            to_map(link_models(links@)) == node@.links,
            i <= links.len(),
            out@.len() == i,
            forall|j: int| 0 <= j < links@.len() ==> (#[trigger] links@[j]).0@ != metadata_key(),
            forall|j: int| 0 <= j < i ==> (#[trigger] out@[j]).0 == links@[j].0 && out@[j].1@ == links@[j].1@ && match out@[j].2 {
                Some(o) => o.wf() && node@.objects.contains_key(out@[j].0@) && o@ == node@.objects[out@[j].0@],
                None => !node@.objects.contains_key(out@[j].0@),
            },
        decreases links.len() - i,
    {
        let object = node.get_object(links[i].0.as_str());
        out.push((links[i].0.clone(), links[i].1.duplicate(), object));
        i = i + 1;
    }
    proof {
        let lv = out@.map_values(|e: ListEntry| (e.0, e.1));
        assert(link_models(lv) =~= link_models(links@));
        assert forall|a: int, b: int| 0 <= a < b < lv.len() implies text_lt(#[trigger] lv[a].0@, #[trigger] lv[b].0@) by {
            assert(text_lt(links@[a].0@, links@[b].0@));
        }
    }
    Ok(out)
}

/// The link of the file at `path` below the root `root`: an entry that
/// carries metadata, in the directory that the other segments resolve to.
pub fn file_link(cache: &BlockCache, root: &Cid, path: &Vec<String>) -> (r: Result<Cid, TreeError>)
    requires
        cache.wf(),
    ensures
        path@.len() == 0 ==> r is Err && r->Err_0 is EmptyPath,
        path@.len() > 0 ==> match lookup_dir(cache@, root@, segs(path@), path@.len() - 1) {
            LookupModel::Found(n) => if n.links.contains_key(path@.last()@) && n.objects.contains_key(path@.last()@) {
                r is Ok && r->Ok_0@ == n.links[path@.last()@]
            } else if n.links.contains_key(path@.last()@) {
                r is Err && r->Err_0 is NotAFile
            } else {
                r is Err && r->Err_0 is NotFound
            },
            other => r is Err && lookup_error(r->Err_0) == other,
        },
{
    if path.len() == 0 {
        return Err(TreeError::EmptyPath);
    }
    let last = path.len() - 1;
    let node = dir_node(cache, root, path, last)?;
    match node.get_link(path[last].as_str()) {
        Some(c) => {
            if node.get_object(path[last].as_str()).is_some() {
                Ok(c)
            } else {
                Err(TreeError::NotAFile)
            }
        },
        None => Err(TreeError::NotFound),
    }
}

/// Resolving a path depends only on the segments it walks.
pub proof fn lemma_dir_at_agree(c: Map<Seq<u8>, NodeModel>, n: NodeModel, pa: Seq<Seq<char>>, pb: Seq<Seq<char>>, i: int, end: int)
    requires
        0 <= i,
        end <= pa.len(),
        end <= pb.len(),
        forall|k: int| i <= k < end ==> pa[k] == pb[k],
    ensures
        dir_at(c, n, pa, i, end) == dir_at(c, n, pb, i, end),
    decreases end - i,
{
    if i < end {
        if n.links.contains_key(pa[i]) && c.contains_key(n.links[pa[i]]) {
            lemma_dir_at_agree(c, c[n.links[pa[i]]], pa, pb, i + 1, end);
        }
    }
}

/// One more segment that names a cached node resolves to that node.
pub proof fn lemma_dir_at_extend(c: Map<Seq<u8>, NodeModel>, n: NodeModel, p: Seq<Seq<char>>, i: int, end: int, m: NodeModel)
    requires
        0 <= i <= end,
        end < p.len(),
        dir_at(c, n, p, i, end) == LookupModel::Found(m),
        m.links.contains_key(p[end]),
        c.contains_key(m.links[p[end]]),
    ensures
        dir_at(c, n, p, i, end + 1) == LookupModel::Found(c[m.links[p[end]]]),
    decreases end - i,
{
    if i < end {
        lemma_dir_at_extend(c, c[n.links[p[i]]], p, i + 1, end, m);
    } else {
        let k = m.links[p[end]];
        assert(dir_at(c, c[k], p, end + 1, end + 1) == LookupModel::Found(c[k]));
    }
}

/// The link of the file at `p` below the root `root`: the last segment names
/// an entry that carries metadata, in the directory that the others resolve to.
pub open spec fn file_at(c: Map<Seq<u8>, NodeModel>, root: Seq<u8>, p: Seq<Seq<char>>) -> Option<Seq<u8>> {
    if p.len() == 0 {
        None
    } else {
        match lookup_dir(c, root, p, p.len() - 1) {
            LookupModel::Found(n) => if n.links.contains_key(p.last()) && n.objects.contains_key(p.last()) {
                Some(n.links[p.last()])
            } else {
                None
            },
            _ => None,
        }
    }
}

pub open spec fn item_paths(s: Seq<(Vec<String>, Cid)>) -> Seq<Seq<Seq<char>>> {
    s.map_values(|e: (Vec<String>, Cid)| path_model(e.0@))
}

pub open spec fn items_sorted(s: Seq<(Vec<String>, Cid)>) -> bool {
    forall|a: int, b: int| 0 <= a < b < s.len() ==> path_lt(#[trigger] path_model(s[a].0@), #[trigger] path_model(s[b].0@))
}

/// `q` strictly extends `prefix`.
pub open spec fn extends(q: Seq<Seq<char>>, prefix: Seq<Seq<char>>) -> bool {
    q.len() > prefix.len() && q.subrange(0, prefix.len() as int) == prefix
}

proof fn lemma_below_extension(e: Seq<Seq<char>>, prefix: Seq<Seq<char>>, q: Seq<Seq<char>>)
    requires
        path_lt(e, prefix),
        extends(q, prefix),
    ensures
        path_lt(e, q),
{
    let rest = q.subrange(prefix.len() as int, q.len() as int);
    assert(q =~= prefix + rest);
    assert(prefix =~= prefix + Seq::<Seq<char>>::empty());
    lemma_path_lt_prefix(prefix, Seq::empty(), rest);
    lemma_path_lt_transitive(e, prefix, q);
}

/// An extension of `prefix + [a]` comes before `prefix + [b]` when `a` comes before `b`.
proof fn lemma_sibling_order(prefix: Seq<Seq<char>>, q: Seq<Seq<char>>, b: Seq<char>)
    requires
        q.len() > prefix.len(),
        q.subrange(0, prefix.len() as int) == prefix,
        text_lt(q[prefix.len() as int], b),
    ensures
        path_lt(q, prefix.push(b)),
{
    let rest = q.subrange(prefix.len() as int, q.len() as int);
    assert(q =~= prefix + rest);
    assert(prefix.push(b) =~= prefix + seq![b]);
    lemma_path_lt_prefix(prefix, rest, seq![b]);
    assert(rest[0] == q[prefix.len() as int]);
    assert(seq![b][0] == b);
    if rest[0] == b {
        crate::text::lemma_text_lt_irreflexive(b);
    }
}

/// The directory reached from `n` through `p`, walking only entries that
/// carry no metadata (directories) and whose node is cached.
pub open spec fn walk_dir(c: Map<Seq<u8>, NodeModel>, n: NodeModel, p: Seq<Seq<char>>) -> Option<NodeModel>
    decreases p.len(),
{
    if p.len() == 0 {
        Some(n)
    } else if n.links.contains_key(p[0]) && !n.objects.contains_key(p[0]) && c.contains_key(n.links[p[0]]) {
        walk_dir(c, c[n.links[p[0]]], p.drop_first())
    } else {
        None
    }
}

/// `rel` names a file below `n` that a walk through directories reaches.
pub open spec fn walk_file(c: Map<Seq<u8>, NodeModel>, n: NodeModel, rel: Seq<Seq<char>>) -> bool {
    rel.len() >= 1 && match walk_dir(c, n, rel.drop_last()) {
        Some(m) => m.links.contains_key(rel.last()) && m.objects.contains_key(rel.last()),
        None => false,
    }
}

/// Whether the directory entry `name` of `n` can be walked within `fuel`
/// levels: a file needs nothing; a directory needs its node cached, a level
/// to spare, and everything below it walkable.
pub open spec fn entry_walkable(c: Map<Seq<u8>, NodeModel>, n: NodeModel, name: Seq<char>, fuel: int) -> bool
    decreases fuel, 0int,
{
    n.objects.contains_key(name) || (c.contains_key(n.links[name]) && fuel > 0
        && walkable(c, c[n.links[name]], fuel - 1))
}

/// Whether every directory below `n` is cached and within `fuel` levels.
pub open spec fn walkable(c: Map<Seq<u8>, NodeModel>, n: NodeModel, fuel: int) -> bool
    decreases fuel, 1int,
{
    forall|name: Seq<char>| #[trigger] n.links.contains_key(name) ==> entry_walkable(c, n, name, fuel)
}

proof fn lemma_walk_file_first(c: Map<Seq<u8>, NodeModel>, n: NodeModel, rel: Seq<Seq<char>>)
    requires
        walk_file(c, n, rel),
    ensures
        n.links.contains_key(rel[0]),
        rel.len() == 1 ==> n.objects.contains_key(rel[0]),
        rel.len() >= 2 ==> !n.objects.contains_key(rel[0]) && c.contains_key(n.links[rel[0]])
            && walk_file(c, c[n.links[rel[0]]], rel.drop_first()),
{
    if rel.len() == 1 {
        assert(rel.drop_last() =~= Seq::<Seq<char>>::empty());
        assert(rel.last() == rel[0]);
    } else {
        let d = rel.drop_last();
        assert(d[0] == rel[0]);
        assert(rel.drop_first().drop_last() =~= d.drop_first());
        assert(rel.drop_first().last() == rel.last());
    }
}

/// Appends, in path order, every file below `node` (the directory at `prefix`),
/// descending at most `fuel` levels further. Returns whether no directory was
/// left out for want of levels; then every file below `node` was appended.
fn collect_items(
    cache: &BlockCache,
    root: &Cid,
    node: &Node,
    prefix: &Vec<String>,
    fuel: usize,
    out: &mut Vec<(Vec<String>, Cid)>,
) -> (r: Result<(), TreeError>)
    requires
        cache.wf(),
        node.wf(),
        lookup_dir(cache@, root@, path_model(prefix@), prefix@.len() as int) == LookupModel::Found(node@),
        items_sorted(old(out)@),
        forall|x: int| 0 <= x < old(out)@.len() ==> path_lt(#[trigger] path_model(old(out)@[x].0@), path_model(prefix@)),
    ensures
        r is Ok <==> walkable(cache@, node@, fuel as int),
        r is Err ==> r->Err_0 is CacheMiss || r->Err_0 is TooDeep,
        r is Ok ==> items_sorted(final(out)@),
        r is Ok ==> final(out)@.len() >= old(out)@.len(),
        r is Ok ==> forall|x: int| 0 <= x < old(out)@.len() ==> #[trigger] final(out)@[x] == old(out)@[x],
        r is Ok ==> forall|x: int| old(out)@.len() <= x < final(out)@.len() ==> extends(#[trigger] path_model(final(out)@[x].0@), path_model(prefix@))
            && file_at(cache@, root@, path_model(final(out)@[x].0@)) == Some(final(out)@[x].1@),
        r is Ok ==> forall|rel: Seq<Seq<char>>| #[trigger] walk_file(cache@, node@, rel) ==> exists|x: int|
            old(out)@.len() <= x < final(out)@.len() && path_model(final(out)@[x].0@) == path_model(prefix@) + rel,
    decreases fuel,
{
    let ghost pm = path_model(prefix@);
    let ghost start = out@.len();
    let links = node.get_links();
    proof {
        lemma_to_map_facts(link_models(links@));
        assert forall|rel: Seq<Seq<char>>| #[trigger] walk_file(cache@, node@, rel)
            && (0 < links.len() ==> text_lt(rel[0], links@[0].0@)) implies false by {
            lemma_walk_file_first(cache@, node@, rel);
            let j = choose|j: int| 0 <= j < link_models(links@).len() && link_models(links@)[j].0 == rel[0];
            assert(links@[j].0@ == rel[0]);
            if j > 0 {
                assert(text_lt(links@[0].0@, links@[j].0@));
                crate::text::lemma_text_lt_asymmetric(links@[0].0@, links@[j].0@);
            } else {
                crate::text::lemma_text_lt_irreflexive(rel[0]);
            }
        }
    }
    let mut i: usize = 0;
    while i < links.len()
        invariant
            cache.wf(),
            node.wf(),
            pm == path_model(prefix@),
            lookup_dir(cache@, root@, pm, pm.len() as int) == LookupModel::Found(node@),
            names_sorted(links@),
            keys_unique(link_models(links@)),
            to_map(link_models(links@)) == node@.links,
            i <= links.len(),
            start <= out@.len(),
            items_sorted(out@),
            forall|x: int| 0 <= x < start ==> #[trigger] out@[x] == old(out)@[x],
            forall|x: int| 0 <= x < start ==> path_lt(#[trigger] path_model(out@[x].0@), pm),
            forall|x: int| start <= x < out@.len() ==> extends(#[trigger] path_model(out@[x].0@), pm)
                && file_at(cache@, root@, path_model(out@[x].0@)) == Some(out@[x].1@)
                && (i < links.len() ==> text_lt(path_model(out@[x].0@)[pm.len() as int], links@[i as int].0@)),
            forall|rel: Seq<Seq<char>>| #[trigger] walk_file(cache@, node@, rel)
                && (i < links.len() ==> text_lt(rel[0], links@[i as int].0@)) ==> exists|x: int|
                start <= x < out@.len() && path_model(out@[x].0@) == pm + rel,
            forall|j: int| 0 <= j < i ==> entry_walkable(cache@, node@, #[trigger] links@[j].0@, fuel as int),
        decreases links.len() - i,
    {
        let name = &links[i].0;
        let mut child_path = copy_path(prefix);
        child_path.push(name.clone());
        let ghost q = path_model(child_path@);
        assert(q =~= pm.push(name@));
        proof {
            lemma_to_map_facts(link_models(links@));
            assert(link_models(links@)[i as int] == (name@, links@[i as int].1@));
            assert(node@.links.contains_key(name@) && node@.links[name@] == links@[i as int].1@);
            lemma_dir_at_agree(cache@, cache@[root@], pm, q, 0, pm.len() as int);
            assert forall|x: int| 0 <= x < out@.len() implies path_lt(#[trigger] path_model(out@[x].0@), q) by {
                if x < start {
                    assert(q.subrange(0, pm.len() as int) =~= pm);
                    lemma_below_extension(path_model(out@[x].0@), pm, q);
                } else {
                    lemma_sibling_order(pm, path_model(out@[x].0@), name@);
                }
            }
        }
        let ghost before = out@;
        if node.get_object(name.as_str()).is_some() {
            out.push((child_path, links[i].1.duplicate()));
            proof {
                assert(file_at(cache@, root@, q) == Some(links@[i as int].1@)) by {
                    assert(q.last() == name@);
                    assert(q.len() - 1 == pm.len());
                }
                assert(q.subrange(0, pm.len() as int) =~= pm);
            }
        } else {
            match cache.get(&links[i].1) {
                Some(child) => {
                    if fuel > 0 {
                        proof {
                            assert(q[pm.len() as int] == name@);
                            lemma_dir_at_extend(cache@, cache@[root@], q, 0, pm.len() as int, node@);
                        }
                        if let Err(e) = collect_items(cache, root, &child, &child_path, fuel - 1, out) {
                            assert(!entry_walkable(cache@, node@, name@, fuel as int));
                            assert(!walkable(cache@, node@, fuel as int));
                            return Err(e);
                        }
                        proof {
                            assert forall|x: int| before.len() <= x < out@.len() implies extends(#[trigger] path_model(out@[x].0@), pm)
                                && path_model(out@[x].0@)[pm.len() as int] == name@ by {
                                let e = path_model(out@[x].0@);
                                assert(e.subrange(0, q.len() as int) == q);
                                assert(e.subrange(0, pm.len() as int) =~= e.subrange(0, q.len() as int).subrange(0, pm.len() as int));
                                assert(q.subrange(0, pm.len() as int) =~= pm);
                                assert(e[pm.len() as int] == e.subrange(0, q.len() as int)[pm.len() as int]);
                            }
                        }
                    } else {
                        assert(!entry_walkable(cache@, node@, name@, fuel as int));
                        assert(!walkable(cache@, node@, fuel as int));
                        return Err(TreeError::TooDeep);
                    }
                },
                None => {
                    assert(!entry_walkable(cache@, node@, name@, fuel as int));
                    assert(!walkable(cache@, node@, fuel as int));
                    return Err(TreeError::CacheMiss(links[i].1.duplicate()));
                },
            }
        }
        proof {
            assert forall|x: int| start <= x < out@.len() && i + 1 < links.len() implies
                text_lt(path_model(#[trigger] out@[x].0@)[pm.len() as int], links@[i + 1].0@) by {
                {
                    assert(text_lt(links@[i as int].0@, links@[i + 1].0@));
                    if x < before.len() {
                        assert(out@[x] == before[x]);
                        lemma_text_lt_transitive(path_model(out@[x].0@)[pm.len() as int], links@[i as int].0@, links@[i + 1].0@);
                    } else if x >= before.len() {
                        assert(path_model(out@[x].0@)[pm.len() as int] == name@) by {
                            if node@.objects.contains_key(name@) {
                                assert(path_model(out@[x].0@) == q);
                            }
                        }
                    }
                }
            }
        }
        proof {
            assert(entry_walkable(cache@, node@, name@, fuel as int));
            assert forall|rel: Seq<Seq<char>>| #[trigger] walk_file(cache@, node@, rel)
                && (i + 1 < links.len() ==> text_lt(rel[0], links@[i + 1].0@)) implies exists|x: int|
                start <= x < out@.len() && path_model(out@[x].0@) == pm + rel by {
                lemma_walk_file_first(cache@, node@, rel);
                lemma_to_map_facts(link_models(links@));
                let j = choose|j: int| 0 <= j < link_models(links@).len() && link_models(links@)[j].0 == rel[0];
                assert(links@[j].0@ == rel[0]);
                assert(node@.links[rel[0]] == links@[j].1@);
                if j < i {
                    assert(text_lt(links@[j].0@, links@[i as int].0@));
                    let x = choose|x: int| start <= x < before.len() && path_model(before[x].0@) == pm + rel;
                    assert(out@[x] == before[x]);
                } else if j == i {
                    if node@.objects.contains_key(name@) {
                        assert(rel =~= seq![name@]);
                        assert(out@[before.len() as int].0@ == child_path@);
                        assert(pm + rel =~= q);
                    } else {
                        let x = choose|x: int| before.len() <= x < out@.len() && path_model(out@[x].0@) == q + rel.drop_first();
                        assert(q + rel.drop_first() =~= pm + rel);
                    }
                } else {
                    assert(text_lt(links@[i as int].0@, links@[j].0@));
                    if j == i + 1 {
                        crate::text::lemma_text_lt_irreflexive(rel[0]);
                    } else {
                        assert(text_lt(links@[i + 1].0@, links@[j].0@));
                        crate::text::lemma_text_lt_asymmetric(links@[i + 1].0@, links@[j].0@);
                    }
                }
            }
        }
        i = i + 1;
    }
    proof {
        lemma_to_map_facts(link_models(links@));
        assert forall|name: Seq<char>| #[trigger] node@.links.contains_key(name) implies entry_walkable(cache@, node@, name, fuel as int) by {
            let j = choose|j: int| 0 <= j < link_models(links@).len() && link_models(links@)[j].0 == name;
            assert(links@[j].0@ == name);
        }
    }
    Ok(())
}

/// Every file below the root `root`, as (path, link) in path order. A tree
/// deeper than `max_depth` levels below the root is refused rather than cut,
/// and a directory whose node is not cached is a cache miss.
pub fn items(cache: &BlockCache, root: &Cid, max_depth: usize) -> (r: Result<Vec<(Vec<String>, Cid)>, TreeError>)
    requires
        cache.wf(),
    ensures
        match r {
            Ok(v) => cache@.contains_key(root@) && items_sorted(v@)
                && (forall|x: int| 0 <= x < v@.len() ==> file_at(cache@, root@, path_model((#[trigger] v@[x]).0@)) == Some(v@[x].1@))
                && forall|rel: Seq<Seq<char>>| #[trigger] walk_file(cache@, cache@[root@], rel)
                    ==> exists|x: int| 0 <= x < v@.len() && path_model(v@[x].0@) == rel,
            Err(e) => !cache@.contains_key(root@) && e is CacheMiss && e->CacheMiss_0@ == root@
                || cache@.contains_key(root@) && !walkable(cache@, cache@[root@], max_depth as int) && (e is TooDeep || e is CacheMiss),
        },
        cache@.contains_key(root@) && walkable(cache@, cache@[root@], max_depth as int) ==> r is Ok,
{
    let node = match cache.get(root) {
        Some(n) => n,
        None => return Err(TreeError::CacheMiss(root.duplicate())),
    };
    let prefix: Vec<String> = Vec::new();
    let mut out: Vec<(Vec<String>, Cid)> = Vec::new();
    assert(path_model(prefix@) =~= Seq::<Seq<char>>::empty());
    if let Err(e) = collect_items(cache, root, &node, &prefix, max_depth, &mut out) {
        return Err(e);
    }
    assert forall|rel: Seq<Seq<char>>| #[trigger] walk_file(cache@, cache@[root@], rel)
        implies exists|x: int| 0 <= x < out@.len() && path_model(out@[x].0@) == rel by {
        assert(path_model(prefix@) + rel =~= rel);
    }
    Ok(out)
}

} // verus!
